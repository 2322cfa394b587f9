use fastwc::count::{count_complicated, trailing_ws, Counts};
use fastwc::parallel::{
    at_least_one, chunk_bounds, count_lines, count_parallel, count_parallel_linelength, line_bounds,
    plan_for, plan_parallel, ParallelPlan,
};
use fastwc::simd::count_buf_mode;
use fastwc::stream::{incomplete_tail, unfinished_tail, ReadEvent, StreamCounter};
use fastwc::ws::{WidthCache, WsMode};

const GNU: WsMode = WsMode { unicode: true, nbsp: true };
const POSIX: WsMode = WsMode { unicode: true, nbsp: false };
const CLOC: WsMode = WsMode { unicode: false, nbsp: true };

/// The widths that glibc gives in C.utf8, for the characters of these tests.
fn glibc(cp: u32) -> i32 {
    match cp {
        0x00ad | 0x200b | 0x0301 => 0,
        0x2028 | 0x2029 => -1,
        0x1100..=0x115f | 0x2e80..=0xa4cf | 0xac00..=0xd7a3 | 0xff01..=0xff60 => 2,
        0x1f300..=0x1f64f => 2,
        0..=0x1f | 0x7f..=0x9f => -1,
        0x11_0000..=u32::MAX => -1,
        _ => 1,
    }
}

fn complicated(data: &[u8], mode: WsMode) -> Counts {
    let mut cache = WidthCache::new();
    let (mut c, _, linepos) =
        count_complicated(data, true, (true, 0), mode, &glibc, &mut cache);
    if linepos > c.max_line_length {
        c.max_line_length = linepos;
    }
    c
}

#[test]
fn tab_advances_to_next_multiple_of_eight() {
    assert_eq!(complicated(b"a\tb", GNU).max_line_length, 9);
    assert_eq!(complicated(b"\t", GNU).max_line_length, 8);
    assert_eq!(complicated(b"abcdefgh\tx", GNU).max_line_length, 17);
}

#[test]
fn carriage_return_and_formfeed_reset_linepos() {
    assert_eq!(complicated(b"abcdef\rxy", GNU).max_line_length, 6);
    assert_eq!(complicated(b"abcdef\x0cxy", GNU).max_line_length, 6);
    // Vertical tab keeps the column but ends the word.
    assert_eq!(complicated(b"abc\x0bdef", GNU).max_line_length, 6);
    assert_eq!(complicated(b"abc\x0bdef", GNU).words, 2);
}

#[test]
fn nonprintable_bytes_have_no_width() {
    assert_eq!(complicated(b"\x01\x01\x01", GNU).max_line_length, 0);
    assert_eq!(complicated(b"ab\x01cd", GNU).max_line_length, 4);
}

#[test]
fn unibyte_locale_treats_high_bytes_as_zero_width() {
    // LC_ALL=C: "caf\xc3\xa9" is five bytes, only three printable.
    let c = complicated(b"caf\xc3\xa9", CLOC);
    assert_eq!(c.max_line_length, 3);
    assert_eq!(c.chars, 5);
    assert_eq!(c.bytes, 5);
}

#[test]
fn unibyte_locale_chars_equal_bytes() {
    let data = "caf\u{e9} \u{4e2d}\u{6587}".as_bytes();
    let (l, w, b, c, _) = count_buf_mode(data, true, true, CLOC);
    assert_eq!(c, b, "-m must equal -c in a unibyte locale");
    assert_eq!(l, 0);
    assert_eq!(w, 2);
}

#[test]
fn malformed_sequences_are_bytes_not_characters() {
    let c = complicated(b"\xc0\xa0\xed\xa0\x80\xff", GNU);
    assert_eq!(c.bytes, 6);
    assert_eq!(c.chars, 0);
    assert_eq!(c.max_line_length, 0);
    // Encoding errors are word material, and these are all contiguous.
    assert_eq!(c.words, 1);
}

#[test]
fn wide_and_combining_characters_use_wcwidth() {
    assert_eq!(complicated("\u{4e2d}\u{6587}".as_bytes(), GNU).max_line_length, 4);
    // U+2028 is a separator with wcwidth -1; it must not subtract.
    assert!(complicated("ab\u{2028}cd".as_bytes(), GNU).max_line_length >= 0);
    assert_eq!(complicated("ab\u{2028}cd".as_bytes(), GNU).max_line_length, 4);
    assert_eq!(complicated("e\u{301}x".as_bytes(), GNU).max_line_length, 2);
}

#[test]
fn carry_goes_in_and_out() {
    let mut cache = WidthCache::new();
    let (c, outside, col) =
        count_complicated(b"lo\nworld", false, (false, 3), GNU, &glibc, &mut cache);
    assert_eq!((c.lines, c.words, c.chars, c.bytes, c.max_line_length), (1, 1, 0, 8, 5));
    assert!(!outside);
    assert_eq!(col, 5);
}

#[test]
fn trailing_white_space_is_seen_whole() {
    assert!(trailing_ws(b"", GNU));
    assert!(trailing_ws(b"a ", GNU));
    assert!(!trailing_ws(b"a", GNU));
    assert!(trailing_ws("a\u{2003}".as_bytes(), GNU));
    assert!(trailing_ws("a\u{a0}".as_bytes(), GNU));
    assert!(!trailing_ws("a\u{a0}".as_bytes(), POSIX));
    assert!(!trailing_ws("a\u{e9}".as_bytes(), GNU));
    assert!(!trailing_ws(b"\x80\x80", GNU));
    assert!(trailing_ws(b"a\xa0", CLOC));
    // The last byte alone is no white space where it ends a longer sequence.
    assert!(!trailing_ws(b"\xf0\x9f\x80\xa0", GNU));
}

#[test]
fn incomplete_tail_holds_back_only_split_sequences() {
    // A whole character is never held back.
    assert_eq!(incomplete_tail("a\u{2003}".as_bytes(), GNU), 0);
    // A truncated one is, so the next read can complete it.
    assert_eq!(incomplete_tail(b"a\xe2\x80", GNU), 2);
    assert_eq!(incomplete_tail(b"a\xe2", GNU), 1);
    assert_eq!(incomplete_tail(b"a\xc2", GNU), 1);
    // Never in a unibyte locale, where bytes stand alone.
    assert_eq!(incomplete_tail(b"a\xe2\x80", CLOC), 0);
}

#[test]
fn at_most_three_bytes_are_held_back() {
    assert_eq!(incomplete_tail(b"\xf0\x9f\x98", GNU), 3);
    assert_eq!(incomplete_tail(b"\xf0\x9f\x98\x80", GNU), 0);
    assert_eq!(incomplete_tail(b"\x80\x80\x80\x80", GNU), 0);
    assert_eq!(incomplete_tail(b"\xf8\x88\x80", GNU), 0);
    assert_eq!(incomplete_tail(b"", GNU), 0);
    assert_eq!(incomplete_tail(b"\xc0", GNU), 1);
}

/// Count `data` in pieces of `size` bytes.
fn streamed(data: &[u8], size: usize, chars: bool, columns: bool, mode: WsMode) -> Counts {
    let mut counter = StreamCounter::new(chars, columns, mode, &glibc);
    for piece in data.chunks(size) {
        assert!(counter.has_room(piece.len()));
        counter.feed(piece);
    }
    counter.finish()
}

#[test]
fn stream_matches_whole_buffer_across_read_boundary() {
    // A separator straddling the 1 MiB read boundary must still be one
    // character, at every possible split offset.
    for off in -3i64..3 {
        let pos = ((1usize << 20) as i64 + off) as usize;
        let mut data = vec![b'a'; pos];
        data.extend_from_slice("\u{2003}".as_bytes());
        data.extend_from_slice(&[b'b'; 100]);

        let streamed = streamed(&data, 1 << 20, true, false, GNU);
        let (_, words, _, chars, _) = count_buf_mode(&data, true, true, GNU);
        assert_eq!(streamed.words, words, "words at offset {off}");
        assert_eq!(streamed.chars, chars, "chars at offset {off}");
        assert_eq!(streamed.words, 2);
    }
}

#[test]
fn stream_matches_whole_buffer_in_pieces_of_any_size() {
    let text = "caf\u{e9} \u{2003}\u{4e2d}\u{6587}\tx\n\u{1f600}\u{a0}y\r\nz\x0bw \u{3000}";
    let mut data = text.as_bytes().to_vec();
    data.extend_from_slice(b"\xe2\x80 \xed\xa0\x80 \xc0\xa0\xff\xf0\x9f\x98");
    for mode in [GNU, POSIX, CLOC] {
        let whole = complicated(&data, mode);
        for size in 1..data.len() + 2 {
            assert_eq!(streamed(&data, size, true, true, mode), whole);
            let plain = streamed(&data, size, false, false, mode);
            assert_eq!((plain.lines, plain.words, plain.bytes), (whole.lines, whole.words, whole.bytes));
            assert_eq!((plain.chars, plain.max_line_length), (0, 0));
        }
    }
}

#[test]
fn long_sequences_are_characters_wherever_they_are_cut() {
    let mut counter = StreamCounter::new(true, false, GNU, &glibc);
    assert!(counter.on_read(ReadEvent::Data(b"\xf8\x88")));
    assert!(counter.on_read(ReadEvent::Data(b"\x80\x80\x80")));
    assert!(!counter.on_read(ReadEvent::Data(b"")));
    let c = counter.finish();
    assert_eq!((c.chars, c.words, c.bytes), (1, 1, 5));

    let data = b"a \xf8\x88\x80\x80\x80 b\xfc\x84\x80\x80\x80\x80\xf8\x88 \xfd\xbf\xbf\xbf\xbf";
    let whole = complicated(data, GNU);
    assert_eq!((whole.words, whole.chars), (4, 7));
    for size in 1..data.len() + 1 {
        assert_eq!(streamed(data, size, true, true, GNU), whole);
    }
}

#[test]
fn at_most_five_bytes_wait_for_the_rest() {
    assert_eq!(unfinished_tail(b"\xf8\x88", GNU), 2);
    assert_eq!(unfinished_tail(b"a\xfd\xbf\xbf\xbf\xbf", GNU), 5);
    assert_eq!(unfinished_tail(b"\xfd\xbf\xbf\xbf\xbf\xbf", GNU), 0);
    assert_eq!(unfinished_tail(b"\xf8\x88\x80\x80\x80", GNU), 0);
    assert_eq!(unfinished_tail(b"a\xe2\x80", GNU), 2);
    assert_eq!(unfinished_tail(b"a\xf8", CLOC), 0);
    assert_eq!(unfinished_tail(b"\xfe\x80", GNU), 0);
    assert_eq!(unfinished_tail(b"", GNU), 0);
}

#[test]
fn read_errors_keep_the_counts_gathered_so_far() {
    let mut counter = StreamCounter::new(false, false, GNU, &glibc);
    assert!(counter.on_read(ReadEvent::Data(b"one two\nthree\n")));
    let stopped = !counter.on_read(ReadEvent::Failed);
    let counts = counter.finish();
    assert_eq!(counts.lines, 2);
    assert_eq!(counts.words, 3);
    assert!(stopped, "the error must still be reported");
}

#[test]
fn reading_goes_on_after_an_interruption() {
    let mut counter = StreamCounter::new(true, true, GNU, &glibc);
    assert!(counter.on_read(ReadEvent::Data(b"ab\xc3")));
    assert!(counter.on_read(ReadEvent::Interrupted));
    assert!(counter.on_read(ReadEvent::Data(b"\xa9c")));
    assert!(!counter.on_read(ReadEvent::Data(b"")));
    let c = counter.finish();
    assert_eq!((c.words, c.chars, c.bytes, c.max_line_length), (1, 4, 5, 4));
}

#[test]
fn a_stream_without_bytes_counts_nothing() {
    let counter = StreamCounter::new(true, true, GNU, &glibc);
    assert!(counter.has_room(usize::MAX >> 7));
    assert!(!counter.has_room(usize::MAX));
    assert_eq!(counter.finish(), Counts::default());
}

fn long_text(n: usize) -> Vec<u8> {
    let pieces: &[&[u8]] = &[
        b"alpha ", "\u{2003}".as_bytes(), "\u{4e2d}\u{6587}".as_bytes(), b"\tx\n", b"\xe2\x80",
        "\u{1f600}".as_bytes(), b"beta\r\n", "\u{a0}".as_bytes(), b"gamma",
    ];
    let mut data = Vec::new();
    for p in pieces.iter().cycle() {
        if data.len() >= n {
            break;
        }
        data.extend_from_slice(p);
    }
    data
}

#[test]
fn chunks_count_like_the_whole() {
    for n in [0usize, 10, 300_000, 1_500_000] {
        let data = long_text(n);
        for mode in [GNU, POSIX, CLOC] {
            let (lines, words, bytes, chars, _) = count_buf_mode(&data, true, true, mode);
            let all = count_parallel(&data, true, true, mode);
            assert_eq!(all, Counts { lines, words, chars, bytes, max_line_length: 0 });
            let few = count_parallel(&data, false, true, mode);
            assert_eq!(few, Counts { lines, words, chars: 0, bytes, max_line_length: 0 });
            let only = count_parallel(&data, false, false, mode);
            assert_eq!(only, Counts { lines: 0, words: 0, chars, bytes, max_line_length: 0 });
        }
    }
}

#[test]
fn chunks_of_lines_count_like_the_whole() {
    for n in [0usize, 10, 3_000_000] {
        let data = long_text(n);
        for mode in [GNU, CLOC] {
            let whole = complicated(&data, mode);
            assert_eq!(count_parallel_linelength(&data, true, mode, &glibc), whole);
            assert_eq!(count_lines(&data, true, mode, &glibc), whole);
            let plain = count_parallel_linelength(&data, false, mode, &glibc);
            assert_eq!(plain, Counts { chars: 0, ..whole });
        }
    }
}

#[test]
fn chunks_do_not_cut_characters() {
    let data = "ab\u{2003}cd\u{4e2d}".as_bytes();
    assert_eq!(chunk_bounds(data, 3, GNU), vec![5, 10]);
    assert_eq!(chunk_bounds(data, 3, CLOC), vec![3, 6, 9, 10]);
    assert_eq!(chunk_bounds(b"", 3, GNU), Vec::<usize>::new());
}

#[test]
fn chunks_of_lines_end_with_a_newline() {
    let data = b"one\ntwo\nthree";
    assert_eq!(line_bounds(data, 1), vec![4, 8, 13]);
    assert_eq!(line_bounds(data, 4), vec![8, 13]);
    assert_eq!(line_bounds(data, 100), vec![13]);
    assert_eq!(line_bounds(b"no newline here", 2), vec![15]);
}

#[test]
fn a_plan_covers_the_text() {
    let data = vec![b'x'; 1_000_000];
    let plan = plan_parallel(&data, GNU);
    assert!(plan.threads >= 1);
    assert!((256 * 1024..=16 * 1024 * 1024).contains(&plan.chunk_size));
    assert_eq!(plan.bounds.last(), Some(&1_000_000));
    assert!(plan.bounds.windows(2).all(|w| w[0] < w[1]));
    // The threads are those that rayon has.
    assert_eq!(plan.threads, rayon::current_num_threads());
}

#[test]
fn a_plan_depends_on_the_threads() {
    let data = vec![b'x'; 3_000_000];
    let plan = plan_for(&data, 2, GNU);
    assert_eq!((plan.threads, plan.chunk_size, plan.bounds.len()), (2, 375_000, 8));
    assert_eq!(
        plan.describe(),
        "wc: debug: 8 chunk(s) of ~375000 bytes across 2 thread(s) (avx2=true)"
    );
    let plan = plan_for(&data, 100, GNU);
    assert_eq!((plan.threads, plan.chunk_size, plan.bounds.len()), (100, 262_144, 12));
}

#[test]
fn a_plan_has_a_thread() {
    assert_eq!(at_least_one(0), 1);
    assert_eq!(at_least_one(1), 1);
    assert_eq!(at_least_one(12), 12);
}

#[test]
fn a_plan_describes_itself() {
    let plan = ParallelPlan { threads: 8, chunk_size: 262144, bounds: vec![262144, 300000] };
    assert_eq!(
        plan.describe(),
        "wc: debug: 2 chunk(s) of ~262144 bytes across 8 thread(s) (avx2=true)"
    );
}

#[test]
fn counts_merge_in_any_order() {
    let a = Counts { lines: 1, words: 2, chars: 3, bytes: 4, max_line_length: 9 };
    let b = Counts { lines: 10, words: 20, chars: 30, bytes: 40, max_line_length: 5 };
    let both = Counts { lines: 11, words: 22, chars: 33, bytes: 44, max_line_length: 9 };
    assert_eq!(a.merge(&b), both);
    assert_eq!(b.merge(&a), both);
    assert_eq!(Counts::default().merge(&a), a);
    let full = Counts { bytes: u64::MAX, ..a };
    assert!(a.can_merge(&b));
    assert!(!full.can_merge(&b));
}
