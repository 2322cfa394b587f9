//! Counting kernel that works byte by byte.
//!
//! Same entry points and same results as the lane kernel in `simd`, without
//! the lanes: the contracts of the two are the same, so that either can stand
//! in for the other.
use crate::simd;
use crate::text;
use crate::text::Unit;
use crate::ws;
use crate::ws::WsMode;
use vstd::prelude::*;

verus! {

/// Tells in debug output that the kernel has no lanes.
pub fn avx2_available() -> (r: bool)
    ensures
        !r,
{
    false
}

fn is_ws_byte(b: u8) -> (r: bool)
    ensures
        r == ws::ascii_space(b as int),
{
    matches!(b, 0x20 | 0x09..=0x0d)
}

/// Unibyte locale: lines, words and the trailing white space carry.
fn count_buf_unibyte(data: &[u8], carry_in: bool, nbsp: bool) -> (r: (u64, u64, bool))
    ensures
        ({
            let mode = WsMode { unicode: false, nbsp };
            &&& r.0 == text::line_count(text::bytes_as_chars(data@))
            &&& r.1 == text::word_count(text::bytes_as_chars(data@), carry_in, mode)
            &&& r.2 == text::ends_outside(text::bytes_as_chars(data@), carry_in, mode)
        }),
{
    let ghost s = data@;
    let ghost mode = WsMode { unicode: false, nbsp };
    let mut lines: u64 = 0;
    let mut words: u64 = 0;
    let mut prev_ws: bool = carry_in;
    let mut i: usize = 0;
    while i < data.len()
        invariant
            s == data@,
            mode == (WsMode { unicode: false, nbsp }),
            i <= s.len(),
            lines == text::line_count(text::bytes_as_chars(s.take(i as int))),
            words == text::word_count(text::bytes_as_chars(s.take(i as int)), carry_in, mode),
            prev_ws == text::ends_outside(
                text::bytes_as_chars(s.take(i as int)),
                carry_in,
                mode,
            ),
        decreases data.len() - i,
    {
        let b: u8 = data[i];
        proof {
            let us = text::bytes_as_chars(s.take(i as int));
            assert(text::bytes_as_chars(s.take(i + 1)) =~= us.push(Unit::Char(b as int)));
            text::lemma_count_bounds(us, carry_in, mode);
            text::lemma_counts_push(us, Unit::Char(b as int), carry_in, mode);
        }
        if b == 0x0a {
            lines = lines + 1;
        }
        let ws: bool = is_ws_byte(b) || (nbsp && b == ws::NBSP_BYTE);
        if !ws && prev_ws {
            words = words + 1;
        }
        prev_ws = ws;
        i = i + 1;
    }
    assert(s.take(i as int) =~= s);
    (lines, words, prev_ws)
}

/// Count a text as `mode` reads it. Returns (lines, words, bytes, chars,
/// carry_out); the characters are 0 unless they are wanted.
pub fn count_buf_mode(data: &[u8], carry_in: bool, want_chars: bool, mode: WsMode) -> (r: (
    u64,
    u64,
    u64,
    u64,
    bool,
))
    ensures
        r.0 == text::line_count(text::units(data@, mode)),
        r.1 == text::word_count(text::units(data@, mode), carry_in, mode),
        r.2 == data@.len(),
        r.3 == if want_chars { text::char_count(text::units(data@, mode)) } else { 0 },
        r.4 == text::ends_outside(text::units(data@, mode), carry_in, mode),
{
    if mode.unicode {
        return ws::count_scalar_unicode(data, carry_in, want_chars, mode);
    }
    // In a unibyte locale a character is a byte, so chars == bytes.
    proof {
        text::lemma_bytes_all_chars(data@);
        assert(mode == (WsMode { unicode: false, nbsp: mode.nbsp }));
    }
    let (lines, words, carry): (u64, u64, bool) = count_buf_unibyte(data, carry_in, mode.nbsp);
    let bytes: u64 = data.len() as u64;
    (lines, words, bytes, if want_chars { bytes } else { 0 }, carry)
}

/// The number of characters of a text.
pub fn count_chars_only(data: &[u8], mode: WsMode) -> (r: u64)
    ensures
        r == text::char_count(text::units(data@, mode)),
{
    if !mode.unicode {
        proof {
            text::lemma_bytes_all_chars(data@);
        }
        return data.len() as u64;
    }
    ws::count_scalar_unicode(data, true, true, mode).3
}

/// Scan the run of printable ASCII that starts at `start`, counting the words
/// that start in it. Returns (end, words, carry).
pub fn simple_ascii_run(data: &[u8], start: usize, carry_ws: bool, _avx2: bool) -> (r: (
    usize,
    u64,
    bool,
))
    ensures
        r.0 == simd::printable_end(data@, start as int),
        r.1 == text::word_count(
            simd::printable_run(data@, start as int),
            carry_ws,
            simd::plain_bytes(),
        ),
        r.2 == text::ends_outside(
            simd::printable_run(data@, start as int),
            carry_ws,
            simd::plain_bytes(),
        ),
{
    simd::simple_ascii_run_scalar(data, start, carry_ws)
}

} // verus!
