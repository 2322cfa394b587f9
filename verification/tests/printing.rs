use fastwc::count::Counts;
use fastwc::names::files0_names;
use fastwc::options::{Options, TotalMode};
use fastwc::report::{
    compute_widths, count_columns, needs_sizes, show_name, write_counts, FileKind, InputStat,
};
use fastwc::session::{
    count_mapped, debug_line, is_stdin, list_error, operand, route, start, Action, Operand,
    Outcome, Route, Session, Start,
};
use fastwc::strings::{decimal, signed_decimal};
use fastwc::ws::WsMode;

const GNU: WsMode = WsMode { unicode: true, nbsp: true };

fn regular(len: u64) -> Option<InputStat> {
    Some(InputStat { kind: FileKind::Regular, len })
}

fn device() -> Option<InputStat> {
    Some(InputStat { kind: FileKind::Other, len: 0 })
}

fn narrow(_cp: u32) -> i32 {
    1
}

#[test]
fn width_is_derived_from_file_sizes_not_from_counts() {
    let opts = Options { print_lines: true, print_words: true, ..Options::new(GNU) };

    // 12345 + 3 = 12348 bytes => 5 columns, for every field.
    let big_and_small = vec![regular(12345), regular(3)];
    assert_eq!(compute_widths(&opts, 2, 2, &big_and_small), [5; 5]);

    // One file and one flag needs no alignment at all.
    let one = vec![regular(12345)];
    let single = Options { print_lines: true, ..Options::new(GNU) };
    assert_eq!(compute_widths(&single, 1, 1, &one), [1; 5]);

    // ...but one file with two flags is padded to the size width.
    assert_eq!(compute_widths(&opts, 1, 2, &one), [5; 5]);

    // --total=only prints a single row, so it is never padded.
    let total_only = Options {
        print_lines: true,
        print_words: true,
        total_mode: TotalMode::Only,
        ..Options::new(GNU)
    };
    assert_eq!(compute_widths(&total_only, 2, 2, &big_and_small), [1; 5]);

    // A missing operand is skipped, not fatal, and not counted.
    let with_missing = vec![regular(3), None];
    assert_eq!(compute_widths(&opts, 2, 2, &with_missing), [1; 5]);

    // A non-regular input forces GNU's minimum width of 7.
    let with_dev = vec![regular(3), device()];
    assert_eq!(compute_widths(&opts, 2, 2, &with_dev), [7; 5]);
}

#[test]
fn widths_at_the_edges() {
    let opts = Options { print_lines: true, print_words: true, ..Options::new(GNU) };
    // No file named: standard input, which may be a pipe or a file.
    assert_eq!(compute_widths(&opts, 0, 2, &vec![device()]), [7; 5]);
    assert_eq!(compute_widths(&opts, 0, 2, &vec![regular(100)]), [3; 5]);
    assert_eq!(compute_widths(&opts, 0, 2, &vec![None]), [1; 5]);
    // A sum that is too great counts as the greatest.
    let huge = vec![regular(u64::MAX), regular(u64::MAX)];
    assert_eq!(compute_widths(&opts, 2, 2, &huge), [20; 5]);
    assert_eq!(compute_widths(&opts, 2, 2, &vec![regular(12345678), device()]), [8; 5]);
    assert_eq!(compute_widths(&opts, 2, 2, &vec![regular(9), regular(1)]), [2; 5]);
    // An empty list needs no alignment, whatever is asked for.
    let listed =
        Options { files_from: Some("list".to_string()), print_lines: true, ..Options::new(GNU) };
    assert!(!needs_sizes(&listed, 0, 5));
    assert!(needs_sizes(&listed, 2, 1));
    assert!(needs_sizes(&opts, 0, 2));
    assert!(!needs_sizes(&opts, 0, 1));
}

#[test]
fn files0_list_preserves_empty_names_but_not_a_trailing_separator() {
    let read = |bytes: &[u8]| files0_names(bytes);

    assert_eq!(read(b"a\0b\0"), vec![b"a".to_vec(), b"b".to_vec()]);
    // No trailing separator is still two names.
    assert_eq!(read(b"a\0b"), vec![b"a".to_vec(), b"b".to_vec()]);
    // The empty middle entry survives, as record 2.
    assert_eq!(read(b"a\0\0b\0"), vec![b"a".to_vec(), b"".to_vec(), b"b".to_vec()]);
    // An empty list is empty, not one empty name.
    assert_eq!(read(b""), Vec::<Vec<u8>>::new());
    assert_eq!(read(b"\0"), vec![b"".to_vec()]);
}

#[test]
fn names_come_back_from_a_list() {
    let names: Vec<Vec<u8>> = vec![b"x".to_vec(), b"".to_vec(), b"y\xff\n".to_vec(), b"".to_vec()];
    let mut list = Vec::new();
    for n in &names {
        list.extend_from_slice(n);
        list.push(0);
    }
    assert_eq!(files0_names(&list), names);
}

const COUNTS: Counts =
    Counts { lines: 1, words: 22, chars: 333, bytes: 4444, max_line_length: 55 };

#[test]
fn rows_have_the_columns_that_are_asked_for() {
    let all = Options {
        print_lines: true,
        print_words: true,
        print_chars: true,
        print_bytes: true,
        print_linelength: true,
        ..Options::new(GNU)
    };
    assert_eq!(count_columns(&all), 5);
    assert_eq!(
        write_counts(&all, &COUNTS, &[5; 5], Some("f")),
        "    1    22   333  4444    55 f\n"
    );
    assert_eq!(write_counts(&all, &COUNTS, &[1; 5], None), "1 22 333 4444 55\n");
    let some = Options { print_words: true, print_linelength: true, ..Options::new(GNU) };
    assert_eq!(count_columns(&some), 2);
    assert_eq!(write_counts(&some, &COUNTS, &[3; 5], None), " 22  55\n");
    let none = Options::new(GNU);
    assert_eq!(count_columns(&none), 0);
    assert_eq!(write_counts(&none, &COUNTS, &[3; 5], Some("f")), " f\n");
}

#[test]
fn each_column_has_its_width() {
    let some = Options { print_lines: true, print_bytes: true, ..Options::new(GNU) };
    assert_eq!(write_counts(&some, &COUNTS, &[2, 9, 9, 6, 9], None), " 1   4444\n");
}

#[test]
fn names_with_control_characters_are_quoted() {
    assert_eq!(show_name("plain"), "plain");
    assert_eq!(show_name("it's"), "it's");
    assert_eq!(show_name("a\nb"), "'a'$'\\n''b'");
    assert_eq!(show_name("a\tb\rc"), "'a'$'\\t''b'$'\\r''c'");
    assert_eq!(show_name("it's\n"), "'it'\\''s'$'\\n'''");
    assert_eq!(show_name("\u{85}"), "'\u{85}'");
    assert_eq!(show_name("\u{7f}x"), "'\u{7f}x'");
    assert_eq!(show_name("\u{a0}"), "\u{a0}");
    assert_eq!(show_name(""), "");
}

#[test]
fn numbers_are_decimal() {
    assert_eq!(decimal(0), "0");
    assert_eq!(decimal(1234567890), "1234567890");
    assert_eq!(decimal(u64::MAX), "18446744073709551615");
    assert_eq!(signed_decimal(-5), "-5");
    assert_eq!(signed_decimal(i64::MIN), "-9223372036854775808");
    assert_eq!(signed_decimal(42), "42");
}

#[test]
fn names_come_from_one_place() {
    let mut o = Options::new(GNU);
    assert_eq!(start(&o), Start::Operands);
    o.files.push(b"f".to_vec());
    assert_eq!(start(&o), Start::Operands);
    o.files_from = Some("list".to_string());
    assert_eq!(start(&o), Start::ExtraOperand);
    o.files.clear();
    assert_eq!(start(&o), Start::ListFile);
    o.files_from = Some("-".to_string());
    assert_eq!(start(&o), Start::ListStdin);
}

#[test]
fn a_dash_is_standard_input() {
    assert!(is_stdin(b"-"));
    assert!(!is_stdin(b"--"));
    assert!(!is_stdin(b""));
    // It is also behind two dashes.
    let o = Options { end_of_opts: true, files: vec![b"-".to_vec()], ..lines_only() };
    assert!(matches!(operand(&o, 0, b"-"), Operand::Stdin));
    let mut s = Session::new(o, [1; 5]);
    assert!(matches!(s.next_action(), Action::CountStdin));
}

#[test]
fn operands_are_read_or_refused() {
    let plain = Options::new(GNU);
    assert!(matches!(operand(&plain, 0, b"-"), Operand::Stdin));
    assert!(matches!(operand(&plain, 0, b"f"), Operand::File));
    let said = |o: &Options, i: usize, n: &[u8]| match operand(o, i, n) {
        Operand::Refused(t) => t,
        other => panic!("{other:?}"),
    };
    assert_eq!(said(&plain, 3, b""), "wc: invalid zero-length file name");
    let listed = Options { files_from: Some("list".to_string()), ..Options::new(GNU) };
    assert_eq!(said(&listed, 3, b""), "wc: list:4: invalid zero-length file name");
    assert!(matches!(operand(&listed, 0, b"-"), Operand::Stdin));
    let piped = Options { files_from: Some("-".to_string()), ..Options::new(GNU) };
    assert_eq!(
        said(&piped, 0, b"-"),
        "wc: when reading file names from stdin, no file name of '-' allowed"
    );
    assert_eq!(said(&piped, 0, b""), "wc: -:1: invalid zero-length file name");
    assert!(matches!(operand(&piped, 0, b"f"), Operand::File));
}

#[test]
fn inputs_take_their_routes() {
    let stat = |kind: FileKind, len: u64| InputStat { kind, len };
    let bytes = Options { print_bytes: true, ..Options::new(GNU) };
    let known = Counts { bytes: 99999, ..Counts::default() };
    assert_eq!(route(&bytes, stat(FileKind::Regular, 99999)), Route::Known(known));
    assert_eq!(route(&bytes, stat(FileKind::Other, 99999)), Route::Streamed);
    let both = Options { print_bytes: true, print_lines: true, ..Options::new(GNU) };
    assert_eq!(route(&both, stat(FileKind::Regular, 65536)), Route::Streamed);
    assert_eq!(route(&both, stat(FileKind::Regular, 65537)), Route::Mapped);
    assert_eq!(
        route(&both, stat(FileKind::Directory, 4096)),
        Route::Unreadable(Counts::default())
    );
    assert_eq!(
        route(&bytes, stat(FileKind::Directory, 4096)),
        Route::Unreadable(Counts::default())
    );
}

#[test]
fn a_mapped_file_has_the_counts_that_are_asked_for() {
    let data = b"one two\nthree\n".repeat(6000);
    let words = Options { print_words: true, ..Options::new(GNU) };
    let c = count_mapped(&data, &words, &narrow);
    assert_eq!((c.lines, c.words, c.chars, c.bytes), (12000, 18000, 0, 84000));
    let chars = Options { print_chars: true, ..Options::new(GNU) };
    let c = count_mapped(&data, &chars, &narrow);
    assert_eq!((c.lines, c.words, c.chars, c.bytes), (0, 0, 84000, 84000));
    let length = Options { print_linelength: true, ..Options::new(GNU) };
    let c = count_mapped(&data, &length, &narrow);
    assert_eq!((c.lines, c.words, c.chars, c.max_line_length), (12000, 18000, 0, 7));
}

#[test]
fn a_mapped_file_is_spoken_of_when_debugging() {
    let data = vec![b'x'; 100_000];
    let debug = Options { print_lines: true, debug: true, ..Options::new(GNU) };
    let said = debug_line(&data, &debug).unwrap_or_default();
    assert!(said.starts_with("wc: debug: 1 chunk(s) of ~262144 bytes across "));
    assert!(said.ends_with(" thread(s) (avx2=true)"));
    assert!(debug_line(&data, &lines_only()).is_none());
    assert!(debug_line(b"", &debug).is_none());
    let length = Options { print_linelength: true, ..debug };
    assert!(debug_line(&data, &length).is_none());
}

fn lines_only() -> Options {
    Options { print_lines: true, ..Options::new(GNU) }
}

fn counted(lines: u64, max_line_length: i64) -> Outcome {
    Outcome::Counted(Counts { lines, max_line_length, ..Counts::default() }, None)
}

#[test]
fn totals_are_the_sums_of_the_rows() {
    let opts = Options {
        print_lines: true,
        print_linelength: true,
        files: vec![b"a".to_vec(), b"b\xff".to_vec()],
        ..Options::new(GNU)
    };
    let mut s = Session::new(opts, [2; 5]);
    assert!(matches!(s.next_action(), Action::CountFile(n) if n == b"a"));
    let r = s.record(&counted(3, 10));
    assert_eq!(r.row.as_deref(), Some(" 3 10 a\n"));
    assert!(r.diagnostic.is_none());
    assert!(matches!(s.next_action(), Action::CountFile(n) if n == b"b\xff"));
    let r = s.record(&counted(4, 7));
    assert_eq!(r.row.as_deref(), Some(" 4  7 b\u{fffd}\n"));
    assert!(matches!(s.next_action(), Action::Done));
    assert_eq!(s.total_row().as_deref(), Some(" 7 10 total\n"));
    assert!(s.is_ok());
    assert!(s.has_room(&Counts::default()));
    assert!(!s.has_room(&Counts { lines: u64::MAX, ..Counts::default() }));
}

#[test]
fn a_file_that_fails_to_open_counts_towards_the_total_row() {
    let opts = Options { files: vec![b"f".to_vec(), b"gone".to_vec()], ..lines_only() };
    let mut s = Session::new(opts, [1; 5]);
    s.next_action();
    s.record(&counted(3, 0));
    s.next_action();
    let r = s.record(&Outcome::NotOpened("No such file or directory".to_string()));
    assert!(r.row.is_none());
    assert_eq!(r.diagnostic.as_deref(), Some("wc: gone: No such file or directory"));
    assert_eq!(s.total_row().as_deref(), Some("3 total\n"));
    assert!(!s.is_ok());
}

#[test]
fn a_file_that_fails_to_read_has_a_row_and_a_diagnostic() {
    let mut s = Session::new(lines_only(), [1; 5]);
    let partial = Counts { lines: 2, ..Counts::default() };
    assert!(matches!(s.next_action(), Action::CountStdin));
    let r = s.record(&Outcome::Counted(partial, Some("Input/output error".to_string())));
    assert_eq!(r.row.as_deref(), Some("2\n"));
    assert_eq!(r.diagnostic.as_deref(), Some("wc: -: Input/output error"));
    assert!(!s.is_ok());
    // One input has no row of totals.
    assert!(s.total_row().is_none());
}

#[test]
fn total_rows_come_when_they_are_asked_for() {
    let with = |mode: TotalMode, n: usize| Options {
        total_mode: mode,
        files: vec![b"f".to_vec(); n],
        ..lines_only()
    };
    let row = |o: Options| Session::new(o, [1; 5]).total_row();
    assert_eq!(row(with(TotalMode::Auto, 1)), None);
    assert_eq!(row(with(TotalMode::Auto, 2)).as_deref(), Some("0 total\n"));
    assert_eq!(row(with(TotalMode::Always, 1)).as_deref(), Some("0 total\n"));
    assert_eq!(row(with(TotalMode::Always, 0)).as_deref(), Some("0 total\n"));
    assert_eq!(row(with(TotalMode::Never, 5)), None);
    assert_eq!(row(with(TotalMode::Only, 1)).as_deref(), Some("0\n"));
    // An empty list has no input at all.
    let empty = Options { files_from: Some("list".to_string()), ..with(TotalMode::Auto, 0) };
    assert_eq!(row(empty), None);
}

#[test]
fn only_the_totals_are_printed_when_asked_for() {
    let opts =
        Options { total_mode: TotalMode::Only, files: vec![b"f".to_vec()], ..lines_only() };
    let mut s = Session::new(opts, [1; 5]);
    s.next_action();
    let r = s.record(&counted(3, 0));
    assert!(r.row.is_none());
    assert_eq!(s.total_row().as_deref(), Some("3\n"));
}

#[test]
fn a_refused_operand_makes_the_run_fail() {
    let opts = Options { files: vec![b"".to_vec(), b"f".to_vec()], ..lines_only() };
    let mut s = Session::new(opts, [1; 5]);
    assert_eq!(s.opts().files.len(), 2);
    assert!(s.is_ok());
    assert!(matches!(s.next_action(), Action::Say(t) if t == "wc: invalid zero-length file name"));
    assert!(!s.is_ok());
    assert!(matches!(s.next_action(), Action::CountFile(n) if n == b"f"));
    assert!(matches!(s.next_action(), Action::Done));
    assert!(matches!(s.next_action(), Action::Done));
}

#[test]
fn a_run_visits_each_input_once() {
    // Without a name standard input is read, once.
    let mut s = Session::new(lines_only(), [1; 5]);
    assert!(matches!(s.next_action(), Action::CountStdin));
    assert!(matches!(s.next_action(), Action::Done));
    // An empty list has no input at all.
    let empty = Options { files_from: Some("list".to_string()), ..lines_only() };
    let mut s = Session::new(empty, [1; 5]);
    assert!(matches!(s.next_action(), Action::Done));
    // A dash is shown as it was given.
    let dash = Options { files: vec![b"-".to_vec()], ..lines_only() };
    let mut s = Session::new(dash, [1; 5]);
    assert!(matches!(s.next_action(), Action::CountStdin));
    assert_eq!(s.record(&counted(3, 0)).row.as_deref(), Some("3 -\n"));
    assert!(matches!(s.next_action(), Action::Done));
}

#[test]
fn shown_names_are_given_as_text_too() {
    let mut s = Session::new(lines_only(), [1; 5]);
    s.next_action();
    let r = s.record_as(Some("a\tb"), &counted(1, 0));
    assert_eq!(r.row.as_deref(), Some("1 'a'$'\\t''b'\n"));
    let mut s = Session::new(lines_only(), [1; 5]);
    s.next_action();
    let r = s.record_as(None, &Outcome::NotOpened("gone".to_string()));
    assert_eq!(r.diagnostic.as_deref(), Some("wc: -: gone"));
}

#[test]
fn a_run_has_the_widths_of_its_inputs() {
    let asked = |n: usize| Options {
        print_lines: true,
        print_bytes: true,
        files: vec![b"f".to_vec(); n],
        ..Options::new(GNU)
    };
    let row = |o: Options, stats: &Vec<Option<InputStat>>| {
        let mut s = Session::for_inputs(o, stats);
        s.next_action();
        s.record(&counted(3, 0)).row.unwrap_or_default()
    };
    assert_eq!(row(asked(2), &vec![regular(12345), regular(3)]), "    3     0 f\n");
    assert_eq!(row(asked(1), &vec![device()]), "      3       0 f\n");
    assert_eq!(row(asked(0), &vec![regular(123)]), "  3   0\n");
    // A single number is not aligned.
    let single = Options { print_bytes: false, ..asked(1) };
    assert_eq!(row(single, &vec![]), "3 f\n");
}

#[test]
fn a_list_that_cannot_be_read_is_named() {
    assert_eq!(
        list_error("list", "No such file or directory"),
        "wc: cannot open 'list' for reading: No such file or directory"
    );
}
