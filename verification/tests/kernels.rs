use fastwc::simd;
use fastwc::simd::{
    chars_tail_scalar, count_buf, count_buf_mode, count_buf_portable, count_buf_scalar,
    count_chars_only, simple_ascii_run, ws_seq_masks,
};
use fastwc::simd_scalar;
use fastwc::ws;
use fastwc::ws::WsMode;

const GNU: WsMode = WsMode { unicode: true, nbsp: true };
const POSIX: WsMode = WsMode { unicode: true, nbsp: false };
const CLOC: WsMode = WsMode { unicode: false, nbsp: true };
const CLOC_POSIX: WsMode = WsMode { unicode: false, nbsp: false };

fn reference(data: &[u8], carry_in: bool, want_chars: bool) -> (u64, u64, u64, u64, bool) {
    count_buf_scalar(data, carry_in, want_chars)
}

#[test]
fn portable_matches_scalar_on_ascii() {
    let data: Vec<u8> = b"the quick brown fox\tjumps\nover the lazy dog  again and again "
        .iter()
        .cycle()
        .take(5000)
        .copied()
        .collect();
    for carry_in in [true, false] {
        let a = count_buf_portable(&data, carry_in, true);
        let b = reference(&data, carry_in, true);
        assert_eq!(a, b);
    }
}

#[test]
fn basic_counts() {
    let (lines, words, bytes, _chars, carry) =
        count_buf_scalar(b"hello world\nfoo  bar\n", true, false);
    assert_eq!(lines, 2);
    assert_eq!(words, 4);
    assert_eq!(bytes, 21);
    assert_eq!(carry, true);
}

#[test]
fn unicode_kernel_matches_scalar() {
    let mode = WsMode { unicode: true, nbsp: true };
    let pieces: &[&[u8]] = &[
        b"a", b"b", b" ", b"\t", b"\n",
        "\u{00A0}".as_bytes(), "\u{2003}".as_bytes(), "\u{3000}".as_bytes(),
        "\u{1680}".as_bytes(), b"word",
    ];
    let mut data = Vec::new();
    for p in pieces.iter().cycle().take(200) {
        data.extend_from_slice(p);
    }
    let expected = ws::count_scalar_unicode(&data, true, false, mode);
    let actual = count_buf_mode(&data, true, false, mode);
    assert_eq!((expected.0, expected.1, expected.4), (actual.0, actual.1, actual.4));
}

#[test]
fn _chars_tail_used() {
    let _ = chars_tail_scalar(b"abc", 0);
}

#[test]
fn chars_tail_takes_each_position_by_itself() {
    assert_eq!(chars_tail_scalar(b"abc", 0), 3);
    assert_eq!(chars_tail_scalar(b"abc", 2), 1);
    assert_eq!(chars_tail_scalar(b"abc", 7), 0);
    assert_eq!(chars_tail_scalar("a\u{e9}".as_bytes(), 0), 2);
    assert_eq!(chars_tail_scalar("a\u{e9}".as_bytes(), 2), 0);
}

/// Bytes that repeat with no period that a lane has.
fn mixed(n: usize) -> Vec<u8> {
    let mut x: u32 = 12345;
    let mut data = Vec::with_capacity(n);
    for _ in 0..n {
        x = x.wrapping_mul(1103515245).wrapping_add(12345);
        let pick = (x >> 16) % 12;
        data.push(match pick {
            0 => b' ',
            1 => b'\n',
            2 => b'\t',
            3 => 0x0b,
            4 => 0xA0,
            5 => 0xC3,
            6 => 0x80,
            7 => 0xE2,
            8 => 0x7f,
            _ => b'a' + (pick as u8),
        });
    }
    data
}

#[test]
fn the_two_kernels_are_interchangeable() {
    for n in [0usize, 1, 31, 32, 33, 34, 35, 64, 67, 100, 1000, 4099] {
        let data = mixed(n);
        let ascii: Vec<u8> = data.iter().map(|b| b & 0x7f).collect();
        for text in [&data, &ascii] {
            for mode in [GNU, POSIX, CLOC, CLOC_POSIX] {
                for carry in [true, false] {
                    for want in [true, false] {
                        assert_eq!(
                            count_buf_mode(text, carry, want, mode),
                            simd_scalar::count_buf_mode(text, carry, want, mode)
                        );
                    }
                    for start in [0usize, 1, n / 2, n, n + 5] {
                        assert_eq!(
                            simple_ascii_run(text, start, carry, true),
                            simd_scalar::simple_ascii_run(text, start, carry, false)
                        );
                    }
                }
                assert_eq!(
                    count_chars_only(text, mode),
                    simd_scalar::count_chars_only(text, mode)
                );
            }
            assert_eq!(count_buf(text, true, true), count_buf_scalar(text, true, true));
        }
    }
    assert!(simd::avx2_available());
    assert!(!simd_scalar::avx2_available());
}

#[test]
fn count_buf_takes_non_continuation_bytes_for_characters() {
    assert_eq!(count_buf("caf\u{e9} x".as_bytes(), true, true), (0, 2, 7, 6, false));
    assert_eq!(count_buf(b"\x80\x80a ", false, true), (0, 0, 4, 2, true));
}

#[test]
fn ascii_runs_stop_at_the_first_other_byte() {
    let mut data = vec![b'x'; 70];
    data[10] = b' ';
    data[40] = b' ';
    assert_eq!(simple_ascii_run(&data, 0, true, true), (70, 3, false));
    data[50] = b'\t';
    assert_eq!(simple_ascii_run(&data, 0, true, true), (50, 3, false));
    assert_eq!(simple_ascii_run(&data, 0, false, true), (50, 2, false));
    assert_eq!(simple_ascii_run(&data, 50, true, true), (50, 0, true));
    assert_eq!(simple_ascii_run(&data, 9, false, true), (50, 2, false));
    data[40] = 0x7f;
    data[39] = b' ';
    assert_eq!(simple_ascii_run(&data, 0, true, true), (40, 2, true));
}

#[test]
fn masks_mark_the_leads_of_wide_white_space() {
    let mut data = vec![b'x'; 40];
    data[0..2].copy_from_slice("\u{a0}".as_bytes());
    data[3..6].copy_from_slice("\u{2000}".as_bytes());
    data[6..9].copy_from_slice("\u{2007}".as_bytes());
    data[9..12].copy_from_slice("\u{200a}".as_bytes());
    data[12..15].copy_from_slice("\u{200b}".as_bytes());
    data[15..18].copy_from_slice("\u{2029}".as_bytes());
    data[18..21].copy_from_slice("\u{202f}".as_bytes());
    data[21..24].copy_from_slice("\u{205f}".as_bytes());
    data[24..27].copy_from_slice("\u{2060}".as_bytes());
    data[27..30].copy_from_slice("\u{1680}".as_bytes());
    data[31..34].copy_from_slice("\u{3000}".as_bytes());
    let at = |ks: &[u32]| ks.iter().fold(0u32, |m, k| m | (1 << k));
    assert_eq!(
        ws_seq_masks(&data, 0, true),
        (at(&[0]), at(&[3, 6, 9, 15, 18, 21, 24, 27, 31]))
    );
    assert_eq!(ws_seq_masks(&data, 0, false), (0, at(&[3, 9, 15, 21, 27, 31])));
    assert_eq!(ws_seq_masks(&data, 3, false), (0, at(&[0, 6, 12, 18, 24, 28])));
}
