use fastwc::count::Counts;
use fastwc::options::{parse_args, Options, Parsed};
use fastwc::parallel::count_parallel;
use fastwc::report::{count_columns, write_counts};
use fastwc::simd::count_buf_mode;
use fastwc::ws::{count_scalar_unicode, decode, is_ws_char, WsMode, LEAD_C2, LEAD_E1, LEAD_E2, LEAD_E3};

const GNU: WsMode = WsMode { unicode: true, nbsp: true };
const POSIX: WsMode = WsMode { unicode: true, nbsp: false };
const CLOC: WsMode = WsMode { unicode: false, nbsp: true };
const CLOC_POSIX: WsMode = WsMode { unicode: false, nbsp: false };

/// The shortest encoding of `v`, in up to six bytes.
fn encode(v: u32) -> Vec<u8> {
    let n = match v {
        0..=0x7f => return vec![v as u8],
        0x80..=0x7ff => 2,
        0x800..=0xffff => 3,
        0x1_0000..=0x1f_ffff => 4,
        0x20_0000..=0x3ff_ffff => 5,
        _ => 6,
    };
    let mut bytes = vec![0u8; n];
    let mut left = v;
    for k in (1..n).rev() {
        bytes[k] = 0x80 | (left & 0x3f) as u8;
        left >>= 6;
    }
    bytes[0] = !(0xffu8 >> n) | left as u8;
    bytes
}

#[test]
fn every_scalar_is_read_from_its_encoding() {
    for v in [
        0u32, 0x7f, 0x80, 0x7ff, 0x800, 0xd7ff, 0xe000, 0xffff, 0x1_0000, 0x10_ffff, 0x11_0000,
        0x1f_ffff, 0x20_0000, 0x3ff_ffff, 0x400_0000, 0x7fff_ffff,
    ] {
        let e = encode(v);
        assert_eq!(decode(&e, 0), (v, e.len(), true));
        // Nothing but the whole of it is the character.
        if e.len() > 1 {
            assert!(!decode(&e[..e.len() - 1], 0).2);
        }
    }
    for v in [0xd800u32, 0xdfff] {
        assert_eq!(decode(&encode(v), 0), (0xFFFD, 1, false));
    }
}

#[test]
fn white_space_outside_ascii_has_four_leads() {
    for v in 0x80..0x1_0000u32 {
        if is_ws_char(v, GNU) {
            let lead = encode(v)[0];
            assert!([LEAD_C2, LEAD_E1, LEAD_E2, LEAD_E3].contains(&lead));
        }
        let plain = is_ws_char(v, POSIX);
        let breaking = [0xa0, 0x2007, 0x202f, 0x2060].contains(&v);
        assert_eq!(is_ws_char(v, GNU), plain || breaking);
        assert!(!(plain && breaking));
    }
}

#[test]
fn a_block_without_those_leads_has_no_wide_space() {
    let block = "na\u{ef}ve \u{4e2d}\u{6587}\tx\u{fffd}\u{1f600}".as_bytes();
    assert!(!block.iter().any(|b| [LEAD_C2, LEAD_E1, LEAD_E2, LEAD_E3].contains(b)));
    for i in 0..block.len() {
        let (cp, _, valid) = decode(block, i);
        if valid && is_ws_char(cp, GNU) {
            assert!(block[i] < 0x80);
        }
    }
}

#[test]
fn plain_leads_need_only_continuation_bytes() {
    for lead in (0xc3u8..=0xdf).chain(0xe4..=0xec).chain(0xee..=0xef) {
        for c in [0x80u8, 0x9f, 0xa0, 0xbf] {
            let (cp, len, valid) = decode(&[lead, c, c], 0);
            assert!(valid);
            assert_eq!(len, if lead < 0xe0 { 2 } else { 3 });
            assert!(!is_ws_char(cp, GNU));
        }
    }
}

#[test]
fn ascii_is_counted_alike_everywhere() {
    let data = b"one two\tthree\nfour\x0b\x0cfive\r\n\x00\x7f six ".repeat(9);
    let first = count_buf_mode(&data, true, true, GNU);
    for mode in [POSIX, CLOC, CLOC_POSIX] {
        assert_eq!(count_buf_mode(&data, true, true, mode), first);
    }
    assert_eq!(first.3, data.len() as u64);
}

#[test]
fn lines_are_newline_bytes() {
    let data = b"a\n\xe2\n\x80\n\xff\n\n\xc3\xa9\n";
    for mode in [GNU, CLOC] {
        let (lines, words, bytes, chars, _) = count_buf_mode(data, true, true, mode);
        assert_eq!(lines, 6);
        assert!(words <= bytes && chars <= bytes);
    }
}

#[test]
fn parts_add_up_where_no_character_is_cut() {
    let data = "a\u{2003}bc \u{4e2d}d\ne".as_bytes();
    let whole = count_scalar_unicode(data, true, true, GNU);
    for p in 0..=data.len() {
        if p < data.len() && (data[p] & 0xc0) == 0x80 {
            continue;
        }
        let a = count_scalar_unicode(&data[..p], true, true, GNU);
        let b = count_scalar_unicode(&data[p..], a.4, true, GNU);
        assert_eq!((a.0 + b.0, a.1 + b.1, a.2 + b.2, a.3 + b.3, b.4), whole);
    }
}

#[test]
fn something_is_always_printed() {
    for args in [vec![], vec![&b"-L"[..]], vec![b"--", b"-l"], vec![b"--total=never"]] {
        let args: Vec<Vec<u8>> = args.iter().map(|a| a.to_vec()).collect();
        match parse_args(&args, GNU) {
            Parsed::Run(o) => assert!(count_columns(&o) >= 1),
            other => panic!("{other:?}"),
        }
    }
}

#[test]
fn rows_show_what_is_asked_for() {
    let data = "caf\u{e9} \u{4e2d}\n".as_bytes();
    let (lines, words, bytes, chars, _) = count_buf_mode(data, true, true, GNU);
    let whole = Counts { lines, words, chars, bytes, max_line_length: 0 };
    for bits in 1..16u8 {
        let o = Options {
            print_lines: bits & 1 != 0,
            print_words: bits & 2 != 0,
            print_chars: bits & 4 != 0,
            print_bytes: bits & 8 != 0,
            ..Options::new(GNU)
        };
        let want_ws = o.print_lines || o.print_words;
        let chunked = count_parallel(data, o.print_chars, want_ws, GNU);
        assert_eq!(
            write_counts(&o, &chunked, &[4; 5], Some("f")),
            write_counts(&o, &whole, &[4; 5], Some("f"))
        );
    }
}
