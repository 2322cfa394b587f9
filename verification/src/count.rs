//! The counts of a text, and the reader that measures display columns.
use crate::simd;
use crate::text;
use crate::text::Unit;
use crate::ws;
use crate::ws::{WidthCache, WsMode};
use vstd::prelude::*;

verus! {

/// What is reported of a text.
#[derive(Clone, Copy, PartialEq, Eq, Debug, Structural)]
pub struct Counts {
    pub lines: u64,
    pub words: u64,
    pub chars: u64,
    pub bytes: u64,
    pub max_line_length: i64,
}

/// The counts of nothing.
pub open spec fn no_counts() -> Counts {
    Counts { lines: 0, words: 0, chars: 0, bytes: 0, max_line_length: 0 }
}

impl Default for Counts {
    fn default() -> (c: Counts)
        ensures
            c == no_counts(),
    {
        Counts { lines: 0, words: 0, chars: 0, bytes: 0, max_line_length: 0 }
    }
}

impl Counts {
    /// The sums of `self` and `other` fit their fields.
    pub open spec fn sums_fit(self, other: Counts) -> bool {
        &&& self.lines + other.lines <= u64::MAX
        &&& self.words + other.words <= u64::MAX
        &&& self.chars + other.chars <= u64::MAX
        &&& self.bytes + other.bytes <= u64::MAX
    }

    /// The counts of two texts taken together: sums, and the longer line.
    pub open spec fn merged(self, other: Counts) -> Counts {
        Counts {
            lines: (self.lines + other.lines) as u64,
            words: (self.words + other.words) as u64,
            chars: (self.chars + other.chars) as u64,
            bytes: (self.bytes + other.bytes) as u64,
            max_line_length: if other.max_line_length > self.max_line_length {
                other.max_line_length
            } else {
                self.max_line_length
            },
        }
    }

    /// Do the sums of `self` and `other` fit their fields?
    pub fn can_merge(&self, other: &Counts) -> (r: bool)
        ensures
            r == self.sums_fit(*other),
    {
        self.lines <= u64::MAX - other.lines && self.words <= u64::MAX - other.words && self.chars
            <= u64::MAX - other.chars && self.bytes <= u64::MAX - other.bytes
    }

    /// The counts of two texts taken together.
    pub fn merge(&self, other: &Counts) -> (c: Counts)
        requires
            self.sums_fit(*other),
        ensures
            c == self.merged(*other),
            c.lines == self.lines + other.lines,
            c.words == self.words + other.words,
            c.chars == self.chars + other.chars,
            c.bytes == self.bytes + other.bytes,
    {
        Counts {
            lines: self.lines + other.lines,
            words: self.words + other.words,
            chars: self.chars + other.chars,
            bytes: self.bytes + other.bytes,
            max_line_length: if other.max_line_length > self.max_line_length {
                other.max_line_length
            } else {
                self.max_line_length
            },
        }
    }
}

/// The columns that `len` bytes can add to `start` fit an `i64`: a tab, one
/// byte, adds up to 8, and two bytes add up to 127.
pub open spec fn columns_fit(start: int, len: int) -> bool {
    0 <= start && start + 64 * len <= i64::MAX
}

/// Count lines, words, characters, bytes and display columns in one pass.
///
/// `carry_in` holds whether the reader stands between words, and its column.
/// Returns the counts, with the longest line that has ended in the text, and
/// the carry behind it.
#[verifier::rlimit(60)]
#[verifier::spinoff_prover]
pub fn count_complicated<W: Fn(u32) -> i32>(
    data: &[u8],
    want_chars: bool,
    carry_in: (bool, i64),
    mode: WsMode,
    wcwidth: &W,
    cache: &mut WidthCache,
) -> (r: (Counts, bool, i64))
    requires
        columns_fit(carry_in.1 as int, data@.len() as int),
        ws::is_width_function(wcwidth),
        old(cache).agrees(ws::width_of(wcwidth)),
    ensures
        ({
            let us = text::units(data@, mode);
            let w = ws::width_of(wcwidth);
            let start = carry_in.1 as int;
            &&& r.0.lines == text::line_count(us)
            &&& r.0.words == text::word_count(us, carry_in.0, mode)
            &&& r.0.chars == if want_chars { text::char_count(us) } else { 0 }
            &&& r.0.bytes == data@.len()
            &&& r.0.max_line_length == text::longest_return(us, start, mode.unicode, w)
            &&& r.1 == text::ends_outside(us, carry_in.0, mode)
            &&& r.2 == text::column_after(us, start, mode.unicode, w)
        }),
        0 <= r.2 <= carry_in.1 + 64 * data@.len(),
        0 <= r.0.max_line_length <= carry_in.1 + 64 * data@.len(),
        final(cache).agrees(ws::width_of(wcwidth)),
{
    let ghost s = data@;
    let ghost w = ws::width_of(wcwidth);
    let ghost start = carry_in.1 as int;
    let ghost mut done: Seq<Unit> = Seq::empty();
    let mut lines: u64 = 0;
    let mut words: u64 = 0;
    let mut chars: u64 = 0;
    let mut in_word_ws: bool = carry_in.0;
    let mut linepos: i64 = carry_in.1;
    let mut max_len: i64 = 0;
    let avx2: bool = simd::avx2_available();
    let mut i: usize = 0;
    proof {
        text::lemma_rest_ends(s, mode);
        assert(done + text::units(s, mode) =~= text::units(s, mode));
    }
    while i < data.len()
        invariant
            s == data@,
            w == ws::width_of(wcwidth),
            start == carry_in.1,
            columns_fit(start, s.len() as int),
            ws::is_width_function(wcwidth),
            cache.agrees(w),
            i <= s.len(),
            done.len() <= i,
            text::units(s, mode) == done + text::units_rest(s, mode, i as int),
            lines == text::line_count(done),
            words == text::word_count(done, carry_in.0, mode),
            chars == if want_chars { text::char_count(done) } else { 0 },
            in_word_ws == text::ends_outside(done, carry_in.0, mode),
            linepos == text::column_after(done, start, mode.unicode, w),
            max_len == text::longest_return(done, start, mode.unicode, w),
            0 <= linepos <= start + 64 * i,
            0 <= max_len <= start + 64 * i,
        decreases data.len() - i,
    {
        let ghost at = i as int;
        proof {
            text::lemma_count_bounds(done, carry_in.0, mode);
            text::lemma_rest_step(s, mode, at);
        }
        let b: u8 = data[i];

        // Printable ASCII plus the plain space needs no decoding: every byte
        // is one character of width one that cannot end a line.
        if 0x20 <= b && b < 0x7f {
            let run: usize = i;
            let (end, n, carry): (usize, u64, bool) = simd::simple_ascii_run(
                data,
                i,
                in_word_ws,
                avx2,
            );
            proof {
                lemma_after_printable(s, mode, at, in_word_ws, w);
                let us = simd::printable_run(s, at);
                lemma_append(done, us, carry_in.0, start, mode, w);
                text::lemma_steady(us, linepos as int, mode.unicode, w);
                text::lemma_count_bounds(done + us, carry_in.0, mode);
                assert(done + text::units_rest(s, mode, at) =~= (done + us) + text::units_rest(
                    s,
                    mode,
                    end as int,
                ));
                done = done + us;
            }
            i = end;
            linepos = linepos + (i - run) as i64;
            words = words + n;
            in_word_ws = carry;
            if want_chars {
                chars = chars + (i - run) as u64;
            }
            continue;
        }

        // Multi-byte characters that no white space set can contain are
        // measured in bulk: they are all word material, so the run only has
        // to contribute its width and, at its start, one word transition.
        if mode.unicode && ((0xC3 <= b && b <= 0xDF) || (0xE4 <= b && b <= 0xEC) || b == 0xEE || b
            == 0xEF) {
            let (end, n, cols): (usize, u64, i64) = ws::nonspace_run(data, i, wcwidth, cache);
            proof {
                ws::lemma_plain_run(s, at);
            }
            if end > i {
                proof {
                    let us = ws::plain_run(s, at);
                    assert(us.len() > 0);
                    lemma_append(done, us, carry_in.0, start, mode, w);
                    text::lemma_steady(us, linepos as int, mode.unicode, w);
                    text::lemma_one_word(us, in_word_ws, mode);
                    text::lemma_count_bounds(done + us, carry_in.0, mode);
                    assert(done + text::units_rest(s, mode, at) =~= (done + us)
                        + text::units_rest(s, mode, end as int));
                    done = done + us;
                }
                if in_word_ws {
                    words = words + 1;
                }
                in_word_ws = false;
                linepos = linepos + cols;
                if want_chars {
                    chars = chars + n;
                }
                i = end;
                continue;
            }
        }

        // In a unibyte locale each byte stands alone; otherwise decode, and
        // treat a malformed sequence as one byte that is neither a character
        // nor white space.
        let (cp, char_len, valid): (u32, usize, bool) = if b < 0x80 {
            (b as u32, 1, true)
        } else if mode.unicode {
            ws::decode(data, i)
        } else {
            (b as u32, 1, true)
        };
        let ghost u = text::read_at(s, mode, at).0;
        proof {
            ws::lemma_ascii_alone(s, at);
            assert(char_len == text::read_at(s, mode, at).1);
            assert(u == if valid { Unit::Char(cp as int) } else { Unit::Stray });
            text::lemma_counts_push(done, u, carry_in.0, mode);
            text::lemma_columns_push(done, u, start, mode.unicode, w);
            assert(done + text::units_rest(s, mode, at) =~= done.push(u) + text::units_rest(
                s,
                mode,
                at + char_len,
            ));
            done = done.push(u);
        }

        if !valid {
            if in_word_ws {
                words = words + 1;
            }
            in_word_ws = false;
            i = i + char_len;
            continue;
        }

        if cp == 0x0a {
            lines = lines + 1;
            if linepos > max_len {
                max_len = linepos;
            }
            linepos = 0;
            in_word_ws = true;
        } else if cp == 0x0d || cp == 0x0c {
            if linepos > max_len {
                max_len = linepos;
            }
            linepos = 0;
            in_word_ws = true;
        } else if cp == 0x09 {
            linepos = linepos + (8 - (linepos % 8));
            in_word_ws = true;
        } else if cp == 0x20 {
            linepos = linepos + 1;
            in_word_ws = true;
        } else if cp == 0x0b {
            in_word_ws = true;
        } else {
            let cols: i64 = ws::display_width(cp, mode.unicode, wcwidth, cache);
            linepos = linepos + cols;
            if ws::is_ws_char(cp, mode) {
                in_word_ws = true;
            } else {
                if in_word_ws {
                    words = words + 1;
                }
                in_word_ws = false;
            }
        }
        if want_chars {
            chars = chars + 1;
        }
        i = i + char_len;
    }
    proof {
        text::lemma_rest_ends(s, mode);
        assert(done + Seq::<Unit>::empty() =~= done);
    }
    (
        Counts { lines, words, chars, bytes: data.len() as u64, max_line_length: max_len },
        in_word_ws,
        linepos,
    )
}

/// Every count of `a + b` from those of `a` and `b`.
pub proof fn lemma_append(
    a: Seq<Unit>,
    b: Seq<Unit>,
    outside: bool,
    start: int,
    mode: WsMode,
    width: spec_fn(u32) -> int,
)
    ensures
        text::line_count(a + b) == text::line_count(a) + text::line_count(b),
        text::char_count(a + b) == text::char_count(a) + text::char_count(b),
        text::word_count(a + b, outside, mode) == text::word_count(a, outside, mode)
            + text::word_count(b, text::ends_outside(a, outside, mode), mode),
        text::ends_outside(a + b, outside, mode) == text::ends_outside(
            b,
            text::ends_outside(a, outside, mode),
            mode,
        ),
        ({
            let col = text::column_after(a, start, mode.unicode, width);
            let la = text::longest_return(a, start, mode.unicode, width);
            let lb = text::longest_return(b, col, mode.unicode, width);
            &&& text::column_after(a + b, start, mode.unicode, width) == text::column_after(
                b,
                col,
                mode.unicode,
                width,
            )
            &&& text::longest_return(a + b, start, mode.unicode, width) == if lb > la { lb } else { la }
        }),
{
    text::lemma_line_count_concat(a, b);
    text::lemma_char_count_concat(a, b);
    text::lemma_word_count_concat(a, b, outside, mode);
    text::lemma_ends_outside_concat(a, b, outside, mode);
    text::lemma_columns_concat(a, b, start, mode.unicode, width);
}

/// What a run of printable ASCII adds.
proof fn lemma_after_printable(
    s: Seq<u8>,
    mode: WsMode,
    i: int,
    outside: bool,
    width: spec_fn(u32) -> int,
)
    requires
        0 <= i < s.len(),
        simd::printable(s[i]),
    ensures
        ({
            let end = simd::printable_end(s, i);
            let us = simd::printable_run(s, i);
            &&& i < end <= s.len()
            &&& us.len() == end - i
            &&& text::units_rest(s, mode, i) == us + text::units_rest(s, mode, end)
            &&& text::word_count(us, outside, mode) == text::word_count(
                us,
                outside,
                simd::plain_bytes(),
            )
            &&& text::ends_outside(us, outside, mode) == text::ends_outside(
                us,
                outside,
                simd::plain_bytes(),
            )
            &&& text::column_after(us, 0, mode.unicode, width) == end - i
            &&& forall|k: int|
                0 <= k < us.len() ==> (#[trigger] us[k]) is Char && us[k]->Char_0 >= 0x20
        }),
{
    let end = simd::printable_end(s, i);
    simd::lemma_printable_end(s, i);
    simd::lemma_printable_end(s, i + 1);
    simd::lemma_printable_run(s, i);
    let part = s.subrange(i, end);
    assert forall|k: int| 0 <= k < part.len() implies 0x20 <= #[trigger] part[k] <= 0x7e by {
        assert(simd::printable(s[i + k]));
    }
    assert forall|k: int| i <= k < end implies #[trigger] s[k] < 0x80 by {
        assert(simd::printable(s[k]));
    }
    text::lemma_rest_ascii(s, mode, i, end);
    text::lemma_ascii_modes(part, outside, mode, simd::plain_bytes());
    text::lemma_printable_columns(part, mode.unicode, width);
}

/// Does a reader of `data` stand between words at the end? The last character
/// alone is looked at; a reader of nothing stands between words.
pub fn trailing_ws(data: &[u8], mode: WsMode) -> (r: bool)
    ensures
        r == text::ends_outside(text::units(data@, mode), true, mode),
{
    let ghost s = data@;
    if data.len() == 0 {
        return true;
    }
    let n: usize = data.len();
    let last: u8 = data[n - 1];
    if last < 0x80 || !mode.unicode {
        proof {
            if mode.unicode {
                ws::lemma_ascii_alone(s, n - 1);
                text::lemma_ends_in_char(s, n - 1);
            }
        }
        return ws::is_ws_char(last as u32, mode);
    }
    let mut start: usize = n - 1;
    let mut steps: usize = 0;
    proof {
        ws::lemma_continuation_mask(last);
    }
    while start > 0 && (data[start] & 0xC0) == 0x80 && steps < 3
        invariant
            s == data@,
            n == s.len(),
            start < n,
            steps == n - 1 - start,
            steps <= 3,
            forall|k: int| start < k < n ==> ws::continuation(#[trigger] s[k]),
        decreases start,
    {
        proof {
            ws::lemma_continuation_mask(s[start as int]);
        }
        start = start - 1;
        steps = steps + 1;
    }
    let ghost p = start as int;
    let (cp, len, valid): (u32, usize, bool) = ws::decode(data, start);
    proof {
        ws::lemma_continuation_mask(s[p]);
        lemma_trailing_space(s, p, mode);
        if valid && start + len == n {
            text::lemma_ends_in_char(s, p);
        }
    }
    if !valid || len != n - start {
        return false;
    }
    ws::is_ws_char(cp, mode)
}

/// A text that ends in white space of several bytes has the lead of it where
/// a walk back over continuation bytes stops.
proof fn lemma_trailing_space(s: Seq<u8>, p: int, mode: WsMode)
    requires
        0 <= p < s.len(),
        s.last() >= 0x80,
        forall|k: int| p < k < s.len() ==> ws::continuation(#[trigger] s[k]),
        p == 0 || !ws::continuation(s[p]) || p == s.len() - 4,
    ensures
        text::ends_outside(text::decoded(s), true, mode) ==> ws::char_at(s, p) && p
            + ws::sequence_len(s[p]) == s.len(),
{
    let q = text::lemma_last_unit(s, 0);
    if text::is_space(text::unit_at(s, q), mode) {
        let n = ws::sequence_len(s[q]);
        assert(ws::char_at(s, q));
        ws::lemma_space_len(s, q, mode);
        ws::lemma_ascii_alone(s, q);
        if q < p {
            assert(ws::continuation(s[p]));
        } else if p < q {
            assert(ws::continuation(s[q]));
        }
    }
}

} // verus!
