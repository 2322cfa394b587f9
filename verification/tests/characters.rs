use fastwc::ws::{
    count_scalar_unicode, decode, display_width, is_ascii_ws, is_ws_char, nonspace_run, WidthCache,
    WsMode, NBSP_BYTE,
};

const GNU: WsMode = WsMode { unicode: true, nbsp: true };
const POSIX: WsMode = WsMode { unicode: true, nbsp: false };
const CLOC: WsMode = WsMode { unicode: false, nbsp: true };
const CLOC_POSIX: WsMode = WsMode { unicode: false, nbsp: false };

/// The widths that glibc gives in C.utf8, for the characters of these tests.
fn glibc(cp: u32) -> i32 {
    match cp {
        0x00ad | 0x200b | 0x0301 => 0,
        0x2028 | 0x2029 => -1,
        0x1100..=0x115f | 0x2e80..=0xa4cf | 0xac00..=0xd7a3 | 0xff01..=0xff60 => 2,
        0x1f300..=0x1f64f => 2,
        0..=0x1f | 0x7f..=0x9f => -1,
        0x11_0000..=u32::MAX => -1,
        _ => 1,
    }
}

#[test]
fn decode_accepts_the_legacy_forms_glibc_accepts() {
    // glibc's UTF-8 decoder predates RFC 3629 and still takes five- and
    // six-byte sequences up to U+7FFFFFFF; wc counts them as one character
    // each, so the decoder has to agree.
    assert_eq!(decode(&[0xfb, 0xb8, 0x96, 0xb3, 0x93], 0), (0x3E16CD3, 5, true));
    assert_eq!(decode(&[0xf8, 0x88, 0x80, 0x80, 0x80], 0), (0x20_0000, 5, true));
    assert_eq!(decode(&[0xfc, 0x84, 0x80, 0x80, 0x80, 0x80], 0), (0x400_0000, 6, true));
    assert_eq!(decode(&[0xfd, 0xbf, 0xbf, 0xbf, 0xbf, 0xbf], 0), (0x7FFF_FFFF, 6, true));
    // Beyond U+10FFFF but reachable in four bytes: still one character.
    assert_eq!(decode(&[0xf4, 0x90, 0x80, 0x80], 0), (0x11_0000, 4, true));
    assert_eq!(decode(&[0xf7, 0xbf, 0xbf, 0xbf], 0), (0x1F_FFFF, 4, true));

    // Still rejected: overlong forms, surrogates and the impossible leads.
    assert!(!decode(&[0xf8, 0x87, 0xbf, 0xbf, 0xbf], 0).2);
    assert!(!decode(&[0xfc, 0x83, 0xbf, 0xbf, 0xbf, 0xbf], 0).2);
    assert!(!decode(&[0xed, 0xa0, 0x80], 0).2);
    assert!(!decode(&[0xc0, 0xa0], 0).2);
    assert!(!decode(&[0xc1, 0xbf], 0).2);
    assert!(!decode(&[0xe0, 0x80, 0xa0], 0).2);
    assert!(!decode(&[0xfe, 0x80, 0x80], 0).2);
    assert!(!decode(&[0xff], 0).2);
    // Truncated tails are invalid, not partial characters.
    assert!(!decode(&[0xfb, 0xb8], 0).2);
}

#[test]
fn glibc_iswspace_set() {
    // Dumped from glibc via iswspace() in C.utf8.
    let spaces = [
        0x09, 0x0A, 0x0B, 0x0C, 0x0D, 0x20, 0x1680, 0x2000, 0x2001, 0x2002,
        0x2003, 0x2004, 0x2005, 0x2006, 0x2008, 0x2009, 0x200A, 0x2028,
        0x2029, 0x205F, 0x3000,
    ];
    for cp in spaces {
        assert!(is_ws_char(cp, POSIX), "U+{cp:04X} should be space");
    }
    for cp in [0x00A0u32, 0x2007, 0x202F, 0x2060, 0x200B, 0x180E, 0x0085, 0xFEFF, 0x2011] {
        assert!(!is_ws_char(cp, POSIX), "U+{cp:04X} should not be space");
    }
}

#[test]
fn gnu_adds_nonbreaking() {
    for cp in [0x00A0u32, 0x2007, 0x202F, 0x2060] {
        assert!(is_ws_char(cp, GNU));
        assert!(!is_ws_char(cp, POSIX));
    }
    // ZWSP and friends are never delimiters, even for GNU.
    for cp in [0x200Bu32, 0x180E, 0x0085, 0xFEFF] {
        assert!(!is_ws_char(cp, GNU));
    }
}

#[test]
fn unibyte_splits_on_byte_a0_only() {
    assert!(is_ws_char(NBSP_BYTE as u32, CLOC));
    assert!(!is_ws_char(NBSP_BYTE as u32, CLOC_POSIX));
    for cp in [0x80u32, 0xC2, 0xE2, 0xFF] {
        assert!(!is_ws_char(cp, CLOC));
    }
}

#[test]
fn counts_words_across_unicode_space() {
    let s = "a\u{2003}b".as_bytes();
    let (_, w, _, _, _) = count_scalar_unicode(s, true, false, POSIX);
    assert_eq!(w, 2);
}

#[test]
fn invalid_utf8_is_word_material() {
    let (_, w, _, _, _) = count_scalar_unicode(b"a\xffb", true, false, GNU);
    assert_eq!(w, 1);
}

#[test]
fn invalid_bytes_are_bytes_but_not_characters() {
    for bad in [&b"\xc0\xa0"[..], b"\xed\xa0\x80", b"\xe2\x80", b"\xff", b"\xc2"] {
        let (_, _, _, c, _) = count_scalar_unicode(bad, true, true, GNU);
        assert_eq!(c, 0, "{bad:?} should contribute no characters");
    }
    let (_, _, _, c, _) = count_scalar_unicode("caf\u{e9}".as_bytes(), true, true, GNU);
    assert_eq!(c, 4);
}

#[test]
fn decode_rejects_overlong_and_surrogates() {
    assert_eq!(decode(b"\xc0\xa0", 0), (0xFFFD, 1, false));
    assert_eq!(decode(b"\xed\xa0\x80", 0), (0xFFFD, 1, false));
    assert_eq!(decode("\u{3000}".as_bytes(), 0), (0x3000, 3, true));
}

#[test]
fn width_matches_isprint_rules() {
    let mut cache = WidthCache::new();
    assert_eq!(display_width(0x01, true, &glibc, &mut cache), 0);
    assert_eq!(display_width(0x7f, true, &glibc, &mut cache), 0);
    assert_eq!(display_width(b'a' as u32, true, &glibc, &mut cache), 1);
    assert_eq!(display_width(0x4e2d, true, &glibc, &mut cache), 2);
    // Negative wcwidth (non-printable) must add nothing, not underflow.
    assert_eq!(display_width(0x2028, true, &glibc, &mut cache), 0);
    assert_eq!(display_width(0x200b, true, &glibc, &mut cache), 0);
    // Unibyte: nothing above 0x7E is printable in the C locale.
    assert_eq!(display_width(0xc3, false, &glibc, &mut cache), 0);
    assert_eq!(display_width(0xa0, false, &glibc, &mut cache), 0);
    assert_eq!(display_width(b'a' as u32, false, &glibc, &mut cache), 1);
}

#[test]
fn a_width_is_asked_for_once() {
    let asked = std::cell::Cell::new(0);
    let count = |cp: u32| {
        asked.set(asked.get() + 1);
        glibc(cp)
    };
    let mut cache = WidthCache::new();
    for _ in 0..5 {
        assert_eq!(display_width(0x4e2d, true, &count, &mut cache), 2);
        assert_eq!(display_width(0x2028, true, &count, &mut cache), 0);
    }
    assert_eq!(asked.get(), 2);
    // Only the Basic Multilingual Plane is remembered.
    assert_eq!(display_width(0x1f600, true, &count, &mut cache), 2);
    assert_eq!(display_width(0x1f600, true, &count, &mut cache), 2);
    assert_eq!(asked.get(), 4);
}

#[test]
fn runs_without_white_space_are_measured_whole() {
    let mut cache = WidthCache::new();
    let data = "\u{e9}\u{4e2d}\u{ff01} \u{e9}".as_bytes();
    assert_eq!(nonspace_run(data, 0, &glibc, &mut cache), (8, 3, 5));
    assert_eq!(nonspace_run(data, 8, &glibc, &mut cache), (8, 0, 0));
    assert_eq!(nonspace_run(data, 99, &glibc, &mut cache), (99, 0, 0));
    // A sequence that is cut short ends the run, and so does a lead of white
    // space.
    assert_eq!(nonspace_run(b"\xc3\xa9\xc3", 0, &glibc, &mut cache), (2, 1, 1));
    assert_eq!(nonspace_run(b"\xc3\xa9\xc2\xa0", 0, &glibc, &mut cache), (2, 1, 1));
    assert_eq!(nonspace_run(b"\xee\x80", 0, &glibc, &mut cache), (0, 0, 0));
}

#[test]
fn six_ascii_bytes_are_white_space() {
    for b in 0..=255u8 {
        assert_eq!(is_ascii_ws(b), b" \t\n\x0b\x0c\r".contains(&b));
    }
}

#[test]
fn mode_follows_the_locale_and_the_environment() {
    assert_eq!(WsMode::from_env(6, false), GNU);
    assert_eq!(WsMode::from_env(6, true), POSIX);
    assert_eq!(WsMode::from_env(1, false), CLOC);
    assert_eq!(WsMode::from_env(1, true), CLOC_POSIX);
}

#[test]
fn four_byte_characters_decode() {
    assert_eq!(decode("\u{1f600}".as_bytes(), 0), (0x1f600, 4, true));
    assert_eq!(decode(b"\xf0\x8f\xbf\xbf", 0), (0xFFFD, 1, false));
    assert_eq!(decode(b"x\xf0\x9f\x98", 1), (0xFFFD, 1, false));
    assert_eq!(decode(b"\xf0\x9f\x98x", 0), (0xFFFD, 1, false));
    assert_eq!(decode(b"\x80", 0), (0xFFFD, 1, false));
}
