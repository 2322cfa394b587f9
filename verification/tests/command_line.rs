use fastwc::help::{help_page, output_format_rows, sections, version_line};
use fastwc::options::{
    long_option, parse_args, parse_texts, short_options, Arg, Options, Parsed, Refusal, Step,
    TotalMode,
};
use fastwc::ws::WsMode;

const GNU: WsMode = WsMode { unicode: true, nbsp: true };

fn parse(args: &[&[u8]]) -> Parsed {
    let args: Vec<Vec<u8>> = args.iter().map(|a| a.to_vec()).collect();
    parse_args(&args, GNU)
}

fn run(args: &[&[u8]]) -> Options {
    match parse(args) {
        Parsed::Run(o) => o,
        other => panic!("{other:?}"),
    }
}

fn refusal(args: &[&[u8]]) -> String {
    match parse(args) {
        Parsed::Refused(r) => r.message(),
        other => panic!("{other:?}"),
    }
}

fn flags(o: &Options) -> [bool; 5] {
    [o.print_lines, o.print_words, o.print_chars, o.print_bytes, o.print_linelength]
}

#[test]
fn lines_words_and_bytes_are_the_default() {
    let o = run(&[]);
    assert_eq!(flags(&o), [true, true, false, true, false]);
    assert_eq!(o.total_mode, TotalMode::Auto);
    assert!(o.files.is_empty());
    assert!(o.files_from.is_none());
    assert_eq!(o.ws_mode, GNU);
    assert!(!o.debug && !o.end_of_opts);
    assert_eq!(flags(&run(&[b"file"])), [true, true, false, true, false]);
}

#[test]
fn letters_and_names_choose_the_same_counts() {
    for (short, long, want) in [
        (&b"-l"[..], &b"--lines"[..], [true, false, false, false, false]),
        (b"-w", b"--words", [false, true, false, false, false]),
        (b"-m", b"--chars", [false, false, true, false, false]),
        (b"-c", b"--bytes", [false, false, false, true, false]),
        (b"-L", b"--max-line-length", [false, false, false, false, true]),
    ] {
        assert_eq!(flags(&run(&[short])), want);
        assert_eq!(flags(&run(&[long])), want);
        assert_eq!(flags(&run(&[short, long])), want);
    }
    assert_eq!(flags(&run(&[b"-lL", b"--chars"])), [true, false, true, false, true]);
    assert!(run(&[b"--debug"]).debug);
    // A value is ignored where none is taken.
    assert_eq!(flags(&run(&[b"--lines=no"])), [true, false, false, false, false]);
}

#[test]
fn operands_stand_among_options() {
    let o = run(&[b"a", b"-l", b"-", b"b\xff", b""]);
    assert_eq!(o.files, vec![b"a".to_vec(), b"-".to_vec(), b"b\xff".to_vec(), b"".to_vec()]);
    assert_eq!(flags(&o), [true, false, false, false, false]);
}

#[test]
fn behind_two_dashes_all_are_operands() {
    let o = run(&[b"-l", b"--", b"-w", b"--help", b"--", b"-"]);
    assert!(o.end_of_opts);
    assert_eq!(
        o.files,
        vec![b"-w".to_vec(), b"--help".to_vec(), b"--".to_vec(), b"-".to_vec()]
    );
    assert_eq!(flags(&o), [true, false, false, false, false]);
}

#[test]
fn values_stand_behind_a_sign_or_in_the_next_argument() {
    assert_eq!(run(&[b"--files0-from=x=y"]).files_from.as_deref(), Some("x=y"));
    assert_eq!(run(&[b"--files0-from="]).files_from.as_deref(), Some(""));
    let o = run(&[b"--files0-from", b"-l", b"-w"]);
    assert_eq!(o.files_from.as_deref(), Some("-l"));
    assert_eq!(flags(&o), [false, true, false, false, false]);
    for (name, mode) in [
        (&b"auto"[..], TotalMode::Auto),
        (b"always", TotalMode::Always),
        (b"only", TotalMode::Only),
        (b"never", TotalMode::Never),
    ] {
        assert_eq!(run(&[b"--total", name]).total_mode, mode);
        let joined = [&b"--total="[..], name].concat();
        assert_eq!(run(&[&joined]).total_mode, mode);
    }
}

#[test]
fn help_and_version_end_the_command_line() {
    assert!(matches!(parse(&[b"-l", b"--help", b"--nonsense"]), Parsed::Help));
    assert!(matches!(parse(&[b"--version", b"-Z"]), Parsed::Version));
    // What stands before them is looked at first.
    assert!(matches!(parse(&[b"-Z", b"--help"]), Parsed::Refused(Refusal::UnknownLetter('Z'))));
}

#[test]
fn no_other_letter_is_taken() {
    assert!(matches!(parse(&[b"-h"]), Parsed::Refused(Refusal::UnknownLetter('h'))));
    assert_eq!(
        refusal(&[b"-h"]),
        "wc: invalid option -- 'h'\nTry 'wc --help' for more information."
    );
    assert!(matches!(parse(&[b"-hl"]), Parsed::Refused(Refusal::UnknownLetter('h'))));
    assert!(matches!(parse(&[b"-lh"]), Parsed::Refused(Refusal::UnknownLetter('h'))));
}

#[test]
fn refusals_say_what_is_wrong() {
    let hint = "\nTry 'wc --help' for more information.";
    assert_eq!(
        refusal(&[b"--files0-from"]),
        format!("wc: option '--files0-from' requires an argument{hint}")
    );
    assert_eq!(
        refusal(&[b"--total"]),
        format!("wc: option '--total' requires an argument{hint}")
    );
    assert_eq!(
        refusal(&[b"--total=maybe"]),
        "wc: invalid argument 'maybe' for '--total'\nValid arguments are:\n  - 'auto'\n  - 'always'\n  - 'only'\n  - 'never'"
    );
    assert_eq!(refusal(&[b"--line=x"]), format!("wc: unrecognized option '--line'{hint}"));
    assert_eq!(refusal(&[b"-lx"]), format!("wc: invalid option -- 'x'{hint}"));
}

#[test]
fn bytes_that_are_no_text_are_replaced() {
    let hint = "\nTry 'wc --help' for more information.";
    assert_eq!(refusal(&[b"--x\xff"]), format!("wc: unrecognized option '--x\u{fffd}'{hint}"));
    assert_eq!(refusal(&[b"-l\xc3"]), format!("wc: invalid option -- '\u{fffd}'{hint}"));
    assert_eq!(run(&[b"--files0-from=\xff"]).files_from.as_deref(), Some("\u{fffd}"));
    assert_eq!(refusal(&["-\u{e9}".as_bytes()]), format!("wc: invalid option -- '\u{e9}'{hint}"));
}

#[test]
fn steps_can_be_taken_one_by_one() {
    match long_option(Options::new(GNU), "--total", Some("only")) {
        Step::Next(o, used) => {
            assert_eq!(o.total_mode, TotalMode::Only);
            assert_eq!(used, 2);
        }
        Step::Stop(p) => panic!("{p:?}"),
    }
    match short_options(Options::new(GNU), "cm") {
        Step::Next(o, used) => {
            assert_eq!(flags(&o), [false, false, true, true, false]);
            assert_eq!(used, 1);
        }
        Step::Stop(p) => panic!("{p:?}"),
    }
    let args = vec![Arg {
        bytes: b"--words".to_vec(),
        text: "--words".to_string(),
        letters: "-words".to_string(),
    }];
    match parse_texts(&args, GNU) {
        Parsed::Run(o) => assert_eq!(flags(&o), [false, true, false, false, false]),
        other => panic!("{other:?}"),
    }
}

#[test]
fn the_help_page_lists_the_options() {
    let plain = help_page(false);
    assert!(plain.starts_with("fastwc 0.1.0 - a high-performance, GNU-compatible wc"));
    assert!(!plain.contains('\x1b'));
    assert!(plain.contains("\nUsage:\n  fastwc [OPTION]... [FILE]...\n"));
    assert!(plain.contains("  -l, --lines                 print the newline counts\n"));
    assert!(plain.contains("      --total <WHEN>          when to print a line with total counts\n"));
    assert!(plain.contains("\nOUTPUT FORMAT\n"));
    assert!(plain.contains("\nTOTAL & FILES\n"));
    assert!(plain.contains("\nMISC\n"));
    assert!(plain.contains("With no FILE, or when FILE is -, read standard input.\n"));
    let coloured = help_page(true);
    assert!(coloured.contains("\x1b[1;36m--lines\x1b[0m"));
}

#[test]
fn the_help_page_is_made_of_sections() {
    let titles: Vec<&str> = sections().iter().map(|s| s.title).collect();
    assert_eq!(titles, vec!["OUTPUT FORMAT", "TOTAL & FILES", "MISC"]);
    let rows = output_format_rows();
    assert_eq!(rows.len(), 6);
    assert_eq!((rows[5].short, rows[5].long), ("-L", "--max-line-length"));
    assert!(rows[5].placeholder.is_none());
    assert_eq!(sections()[1].rows[0].placeholder, Some("<WHEN>"));
}

#[test]
fn the_version_line_has_colours_on_a_terminal() {
    assert_eq!(version_line(false), "fastwc 0.1.0 (GNU wc compatible)");
    assert_eq!(
        version_line(true),
        "\x1b[1m\x1b[36mfastwc\x1b[0m 0.1.0 \x1b[1m(GNU wc compatible)\x1b[0m"
    );
}
