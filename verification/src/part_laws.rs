//! What the kernels, the chunks and the lists of names come to, said once more
//! from the outside.
use crate::bits;
use crate::names;
use crate::parallel;
use crate::simd;
use crate::text;
use crate::text::Unit;
use crate::ws;
use crate::ws::WsMode;
use vstd::prelude::*;

verus! {

// ---------------------------------------------------------------------------
// Bytes.

/// Leads are the bytes that continue no character.
pub proof fn law_leads(s: Seq<u8>)
    ensures
        simd::lead_count(s) == s.filter(|b: u8| b < 0x80 || b >= 0xc0).len(),
    decreases s.len(),
{
    reveal(Seq::filter);
    if s.len() > 0 {
        law_leads(s.drop_last());
    }
}

/// Bit `k` of a mask stands for 2 to the power of `k`.
pub proof fn law_bit_of_a_mask(x: u32, k: u32)
    requires
        k < 32,
    ensures
        bits::bit(x, k as int) <==> x & (1u32 << k) != 0,
{
    assert((x >> k) & 1 == 1 <==> x & (1u32 << k) != 0) by (bit_vector)
        requires
            k < 32,
    ;
}

/// A character of four bytes has a lead from 0xF0 to 0xF7 and is worth 0x10000
/// at least, and needs not be one of Unicode. One of five has a lead from 0xF8
/// to 0xFB and is worth 0x200000 at least; one of six has the lead 0xFC or 0xFD
/// and is worth 0x4000000 at least. What the lead is beyond the first of its
/// kind, and six bits of each byte behind it, make the character.
pub proof fn law_long_sequences(s: Seq<u8>)
    ensures
        ({
            let v = (((s[0] - 0xf0) * 64 + (s[1] - 0x80)) * 64 + (s[2] - 0x80)) * 64 + (s[3]
                - 0x80);
            s.len() >= 4 && 0xf0 <= s[0] <= 0xf7 && 0x80 <= s[1] <= 0xbf && 0x80 <= s[2] <= 0xbf
                && 0x80 <= s[3] <= 0xbf && v >= 0x1_0000 ==> text::decoded(s) == seq![
                Unit::Char(v),
            ] + text::units_from(s, 4)
        }),
        ({
            let v = ((((s[0] - 0xf8) * 64 + (s[1] - 0x80)) * 64 + (s[2] - 0x80)) * 64 + (s[3]
                - 0x80)) * 64 + (s[4] - 0x80);
            s.len() >= 5 && 0xf8 <= s[0] <= 0xfb && 0x80 <= s[1] <= 0xbf && 0x80 <= s[2] <= 0xbf
                && 0x80 <= s[3] <= 0xbf && 0x80 <= s[4] <= 0xbf && v >= 0x20_0000
                ==> text::decoded(s) == seq![Unit::Char(v)] + text::units_from(s, 5)
        }),
        ({
            let v = (((((s[0] - 0xfc) * 64 + (s[1] - 0x80)) * 64 + (s[2] - 0x80)) * 64 + (s[3]
                - 0x80)) * 64 + (s[4] - 0x80)) * 64 + (s[5] - 0x80);
            s.len() >= 6 && 0xfc <= s[0] <= 0xfd && 0x80 <= s[1] <= 0xbf && 0x80 <= s[2] <= 0xbf
                && 0x80 <= s[3] <= 0xbf && 0x80 <= s[4] <= 0xbf && 0x80 <= s[5] <= 0xbf && v
                >= 0x400_0000 ==> text::decoded(s) == seq![Unit::Char(v)] + text::units_from(s, 6)
        }),
{
    reveal_with_fuel(ws::value_of, 7);
}

proof fn lemma_count_up_first(from: int, n: nat, p: spec_fn(int) -> bool)
    requires
        n > 0,
    ensures
        Seq::new(n, |k: int| from + k).filter(p).len() == Seq::new(
            (n - 1) as nat,
            |k: int| from + 1 + k,
        ).filter(p).len() + if p(from) { 1int } else { 0 },
{
    reveal(Seq::filter);
    let all = Seq::new(n, |k: int| from + k);
    let one = seq![from];
    let rest = Seq::new((n - 1) as nat, |k: int| from + 1 + k);
    assert(all =~= one + rest);
    Seq::filter_distributes_over_add(one, rest, p);
    assert(one.drop_last() =~= Seq::<int>::empty());
    assert(one.drop_last().filter(p) =~= Seq::<int>::empty());
}

/// The characters from a place on are counted by the places where one starts.
pub proof fn law_chars_from(s: Seq<u8>, from: int)
    requires
        0 <= from <= s.len(),
    ensures
        simd::chars_starting(s, from) == Seq::new(
            (s.len() - from) as nat,
            |k: int| from + k,
        ).filter(|i: int| ws::char_at(s, i)).len(),
    decreases s.len() - from,
{
    let p = |i: int| ws::char_at(s, i);
    if from < s.len() {
        law_chars_from(s, from + 1);
        lemma_count_up_first(from, (s.len() - from) as nat, p);
        assert(Seq::new((s.len() - from - 1) as nat, |k: int| from + 1 + k) =~= Seq::new(
            (s.len() - (from + 1)) as nat,
            |k: int| from + 1 + k,
        ));
    } else {
        reveal(Seq::filter);
        assert(Seq::new((s.len() - from) as nat, |k: int| from + k) =~= Seq::<int>::empty());
    }
}

proof fn lemma_skip_continuation(s: Seq<u8>, i: int, j: int)
    requires
        0 <= i <= j <= s.len(),
        forall|k: int| i <= k < j ==> ws::continuation(#[trigger] s[k]),
    ensures
        simd::chars_starting(s, i) == simd::chars_starting(s, j),
    decreases j - i,
{
    if i < j {
        assert(ws::continuation(s[i]));
        lemma_skip_continuation(s, i + 1, j);
    }
}

proof fn lemma_chars_of_units(s: Seq<u8>, i: int)
    requires
        0 <= i <= s.len(),
    ensures
        text::char_count(text::units_from(s, i)) == simd::chars_starting(s, i),
    decreases s.len() - i,
{
    reveal_with_fuel(text::char_count, 2);
    if i < s.len() {
        let n = text::step_at(s, i);
        lemma_chars_of_units(s, i + n);
        lemma_skip_continuation(s, i + 1, i + n);
        let one = seq![text::unit_at(s, i)];
        text::lemma_char_count_concat(one, text::units_from(s, i + n));
        assert(one.drop_last() =~= Seq::<Unit>::empty());
    }
}

/// As many characters start in a text as are read in it.
pub proof fn law_chars_start_where_they_are_read(s: Seq<u8>)
    ensures
        simd::chars_starting(s, 0) == text::char_count(text::decoded(s)),
{
    lemma_chars_of_units(s, 0);
}

/// White space of `n` bytes is a character of `n` bytes that separates words.
pub proof fn law_space_at(s: Seq<u8>, j: int, n: int, nbsp: bool)
    requires
        0 <= j < s.len(),
    ensures
        simd::space_at(s, j, n, nbsp) <==> text::step_at(s, j) == n && text::is_space(
            text::unit_at(s, j),
            (WsMode { unicode: true, nbsp }),
        ),
{
}

proof fn lemma_printable_stop(s: Seq<u8>, i: int)
    requires
        0 <= i <= s.len(),
    ensures
        simd::printable_end(s, i) < s.len() ==> !simd::printable(s[simd::printable_end(s, i)]),
    decreases s.len() - i,
{
    if i < s.len() && simd::printable(s[i]) {
        lemma_printable_stop(s, i + 1);
    }
}

/// A run of printable ASCII goes on as long as its bytes are from 0x20 to
/// 0x7E, and holds them as characters.
pub proof fn law_printable_run(s: Seq<u8>, i: int)
    requires
        0 <= i <= s.len(),
    ensures
        ({
            let end = simd::printable_end(s, i);
            let run = simd::printable_run(s, i);
            &&& i <= end <= s.len()
            &&& forall|k: int| i <= k < end ==> 0x20 <= #[trigger] s[k] <= 0x7e
            &&& end < s.len() ==> s[end] < 0x20 || s[end] > 0x7e
            &&& run == s.subrange(i, end).map_values(|b: u8| Unit::Char(b as int))
        }),
{
    simd::lemma_printable_end(s, i);
    lemma_printable_stop(s, i);
    let end = simd::printable_end(s, i);
    assert forall|k: int| i <= k < end implies 0x20 <= #[trigger] s[k] <= 0x7e by {
        assert(simd::printable(s[k]));
    }
    assert(simd::printable_run(s, i) =~= s.subrange(i, end).map_values(
        |b: u8| Unit::Char(b as int),
    ));
}

/// A lead of two or three bytes that needs no look at the bytes behind it: no
/// delimiter, no surrogate and no overlong form starts with it.
pub open spec fn needs_no_look(b: u8) -> bool {
    0xc3 <= b <= 0xef && b != 0xe0 && b != 0xe1 && b != 0xe2 && b != 0xe3 && b != 0xed
}

/// A run of characters with such leads goes on as long as there is one, and is
/// read as it is in its text.
pub proof fn law_plain_run(s: Seq<u8>, i: int)
    requires
        0 <= i <= s.len(),
    ensures
        ({
            let end = ws::plain_end(s, i);
            &&& i <= end <= s.len()
            &&& end < s.len() ==> !(needs_no_look(s[end]) && ws::char_at(s, end))
            &&& i < s.len() && needs_no_look(s[i]) && ws::char_at(s, i) ==> end > i
            &&& text::units_from(s, i) == ws::plain_run(s, i) + text::units_from(s, end)
            &&& i < s.len() && !needs_no_look(s[i]) ==> end == i
        }),
    decreases s.len() - i,
{
    ws::lemma_plain_run(s, i);
    if i < s.len() && ws::plain_lead(s[i]) && ws::char_at(s, i) {
        let n = ws::sequence_len(s[i]);
        ws::lemma_plain_run(s, i + n);
        law_plain_run(s, i + n);
    }
}

/// A byte is such a lead or not, whatever stands behind it.
pub proof fn law_plain_lead(b: u8)
    ensures
        ws::plain_lead(b) <==> needs_no_look(b),
{
}

/// Bytes separate words if they are ASCII white space, and with non-breaking
/// spaces also if they are 0xA0.
pub proof fn law_byte_delimiters(b: u8)
    ensures
        text::is_space(Unit::Char(b as int), simd::plain_bytes()) <==> 0x09 <= b <= 0x0d || b
            == 0x20,
        text::is_space(Unit::Char(b as int), simd::gnu_bytes()) <==> 0x09 <= b <= 0x0d || b == 0x20
            || b == 0xa0,
{
}

/// The words of printable ASCII are the same in every locale.
pub proof fn law_printable_words(s: Seq<u8>, i: int, outside: bool, mode: WsMode)
    requires
        0 <= i <= s.len(),
    ensures
        text::word_count(simd::printable_run(s, i), outside, simd::plain_bytes())
            == text::word_count(simd::printable_run(s, i), outside, mode),
        text::ends_outside(simd::printable_run(s, i), outside, simd::plain_bytes())
            == text::ends_outside(simd::printable_run(s, i), outside, mode),
{
    simd::lemma_printable_end(s, i);
    simd::lemma_printable_run(s, i);
    let part = s.subrange(i, simd::printable_end(s, i));
    assert forall|k: int| 0 <= k < part.len() implies #[trigger] part[k] < 0x80 by {
        assert(simd::printable(s[i + k]));
    }
    let us = simd::printable_run(s, i);
    lemma_same_words(us, outside, mode, simd::plain_bytes());
}

proof fn lemma_same_words(us: Seq<Unit>, outside: bool, m: WsMode, n: WsMode)
    requires
        forall|k: int|
            0 <= k < us.len() ==> ((#[trigger] us[k]) matches Unit::Char(cp) && cp < 0x80),
    ensures
        text::word_count(us, outside, m) == text::word_count(us, outside, n),
        text::ends_outside(us, outside, m) == text::ends_outside(us, outside, n),
    decreases us.len(),
{
    if us.len() > 0 {
        let before = us.drop_last();
        assert(us.last() == us[us.len() - 1]);
        assert forall|k: int| 0 <= k < before.len() implies ((#[trigger] before[k]) matches
            Unit::Char(cp) && cp < 0x80) by {
            assert(us[k] == before[k]);
        }
        lemma_same_words(before, outside, m, n);
    }
}

/// The width of a character is what the function of widths gives for it.
pub proof fn law_width_is_asked_for<W: Fn(u32) -> i32>(wcwidth: &W, cp: u32, r: i32)
    requires
        ws::is_width_function(wcwidth),
        call_ensures(*wcwidth, (cp,), r),
    ensures
        ws::width_of(wcwidth)(cp) == r,
{
}

/// The columns of a text can be counted if 64 for each byte fit an `i64`.
pub proof fn law_room_for_columns(start: int, len: int)
    ensures
        crate::count::columns_fit(start, len) <==> start >= 0 && start + len * 64
            <= 0x7fff_ffff_ffff_ffff,
{
}

// ---------------------------------------------------------------------------
// Chunks.

/// A chunk is a quarter of a thread's share of the text, between the least and
/// the greatest size.
pub proof fn law_chunk_size(len: int, threads: int, low: int, high: int)
    requires
        len >= 0,
        threads >= 1,
        0 < low <= high,
    ensures
        ({
            let size = parallel::target_size(len, threads, low, high);
            &&& low <= size <= high
            &&& size == low || size * (4 * threads) <= len
            &&& size == high || (size + 1) * (4 * threads) > len
        }),
        parallel::CHUNK_MIN == 256 * 1024,
        parallel::CHUNK_MAX == 16 * 1024 * 1024,
        parallel::LINES_MIN == 1024 * 1024,
        parallel::LINES_MAX == 32 * 1024 * 1024,
{
    let size = parallel::target_size(len, threads, low, high);
    let d = 4 * threads;
    let q = len / d;
    vstd::arithmetic::div_mod::lemma_fundamental_div_mod(len, d);
    assert(q * d <= len < (q + 1) * d) by (nonlinear_arith)
        requires
            len == d * q + len % d,
            0 <= len % d < d,
    ;
    if size < q {
        assert(size == high);
        assert(size * d <= q * d) by (nonlinear_arith)
            requires
                size < q,
                d > 0,
        ;
    }
    if size > q {
        assert((size + 1) * d >= (q + 1) * d) by (nonlinear_arith)
            requires
                size > q,
                d > 0,
        ;
    }
}

proof fn lemma_only_continuation(s: Seq<u8>, p: int)
    requires
        0 <= p <= s.len(),
    ensures
        ({
            let end = parallel::past_continuation(s, p);
            &&& p <= end <= s.len()
            &&& forall|k: int| p <= k < end ==> 0x80 <= #[trigger] s[k] <= 0xbf
            &&& end < s.len() ==> s[end] < 0x80 || s[end] > 0xbf
        }),
    decreases s.len() - p,
{
    if p < s.len() && ws::continuation(s[p]) {
        lemma_only_continuation(s, p + 1);
    }
}

/// A chunk has the size that was asked for, unless the text ends before, or a
/// character goes on there: then it takes the bytes that continue one.
pub proof fn law_chunk_end(s: Seq<u8>, off: int, size: int, unicode: bool)
    requires
        0 <= off <= s.len(),
        size > 0,
    ensures
        ({
            let end = parallel::chunk_end(s, off, size, unicode);
            &&& end <= s.len()
            &&& off + size >= s.len() ==> end == s.len()
            &&& off + size < s.len() ==> {
                &&& end >= off + size
                &&& !unicode ==> end == off + size
                &&& unicode ==> forall|k: int|
                    off + size <= k < end ==> 0x80 <= #[trigger] s[k] <= 0xbf
                &&& unicode && end < s.len() ==> s[end] < 0x80 || s[end] > 0xbf
            }
        }),
{
    if off + size < s.len() && unicode {
        lemma_only_continuation(s, off + size);
    }
}

proof fn lemma_up_to_newline(s: Seq<u8>, p: int)
    requires
        0 <= p < s.len(),
    ensures
        ({
            let end = parallel::past_newline(s, p);
            &&& p < end <= s.len()
            &&& forall|k: int| p <= k < end - 1 ==> #[trigger] s[k] != 0x0a
            &&& end < s.len() ==> s[end - 1] == 0x0a
        }),
    decreases s.len() - p,
{
    reveal_with_fuel(parallel::past_newline, 2);
    if s[p] != 0x0a && p + 1 < s.len() {
        lemma_up_to_newline(s, p + 1);
    }
}

/// A chunk of whole lines ends behind the first newline at its size or beyond,
/// or with the text.
pub proof fn law_lines_end(s: Seq<u8>, off: int, size: int)
    requires
        0 <= off <= s.len(),
        size > 0,
    ensures
        ({
            let end = parallel::lines_end(s, off, size);
            &&& end <= s.len()
            &&& off + size >= s.len() ==> end == s.len()
            &&& off + size < s.len() ==> {
                &&& end > off + size
                &&& forall|k: int| off + size <= k < end - 1 ==> #[trigger] s[k] != 0x0a
                &&& end < s.len() ==> s[end - 1] == 0x0a
            }
        }),
{
    if off + size < s.len() {
        lemma_up_to_newline(s, off + size);
    }
}

/// One chunk comes behind the other, up to the end of the text.
pub proof fn law_chunks_follow(s: Seq<u8>, off: int, size: int, unicode: bool)
    requires
        0 <= off <= s.len(),
        size > 0,
    ensures
        ({
            let ends = parallel::chunk_ends(s, off, size, unicode);
            &&& off == s.len() ==> ends.len() == 0
            &&& off < s.len() ==> ends.len() > 0 && ends.last() == s.len() && ends[0]
                == parallel::chunk_end(s, off, size, unicode)
            &&& forall|k: int|
                0 < k < ends.len() ==> #[trigger] ends[k] == parallel::chunk_end(
                    s,
                    ends[k - 1],
                    size,
                    unicode,
                )
        }),
    decreases s.len() - off,
{
    law_chunk_end(s, off, size, unicode);
    if off < s.len() {
        let end = parallel::chunk_end(s, off, size, unicode);
        law_chunks_follow(s, end, size, unicode);
        let rest = parallel::chunk_ends(s, end, size, unicode);
        let ends = parallel::chunk_ends(s, off, size, unicode);
        assert(ends =~= seq![end] + rest);
        assert forall|k: int| 0 < k < ends.len() implies #[trigger] ends[k] == parallel::chunk_end(
            s,
            ends[k - 1],
            size,
            unicode,
        ) by {
            assert(ends[k] == rest[k - 1]);
            if k > 1 {
                assert(ends[k - 1] == rest[k - 2]);
            }
        }
    }
}

/// One chunk of whole lines comes behind the other, up to the end of the text.
pub proof fn law_chunks_of_lines_follow(s: Seq<u8>, off: int, size: int)
    requires
        0 <= off <= s.len(),
        size > 0,
    ensures
        ({
            let ends = parallel::lines_ends(s, off, size);
            &&& off == s.len() ==> ends.len() == 0
            &&& off < s.len() ==> ends.len() > 0 && ends.last() == s.len() && ends[0]
                == parallel::lines_end(s, off, size)
            &&& forall|k: int|
                0 < k < ends.len() ==> #[trigger] ends[k] == parallel::lines_end(
                    s,
                    ends[k - 1],
                    size,
                )
        }),
    decreases s.len() - off,
{
    law_lines_end(s, off, size);
    if off < s.len() {
        let end = parallel::lines_end(s, off, size);
        law_chunks_of_lines_follow(s, end, size);
        let rest = parallel::lines_ends(s, end, size);
        let ends = parallel::lines_ends(s, off, size);
        assert(ends =~= seq![end] + rest);
        assert forall|k: int| 0 < k < ends.len() implies #[trigger] ends[k] == parallel::lines_end(
            s,
            ends[k - 1],
            size,
        ) by {
            assert(ends[k] == rest[k - 1]);
            if k > 1 {
                assert(ends[k - 1] == rest[k - 2]);
            }
        }
    }
}

// ---------------------------------------------------------------------------
// Lists of names.

proof fn lemma_split_alone(a: Seq<u8>)
    requires
        !a.contains(0u8),
    ensures
        names::split_at_nul(a) == seq![a],
    decreases a.len(),
{
    if a.len() > 0 {
        let before = a.drop_last();
        assert forall|k: int| 0 <= k < before.len() implies before[k] != 0 by {
            assert(a.contains(a[k]));
        }
        lemma_split_alone(before);
        assert(a.contains(a.last()));
        assert(before.push(a.last()) =~= a);
        assert(names::split_at_nul(a) =~= seq![a]);
    } else {
        assert(a =~= Seq::<u8>::empty());
        assert(names::split_at_nul(a) =~= seq![a]);
    }
}

proof fn lemma_split_first(a: Seq<u8>, b: Seq<u8>)
    requires
        !a.contains(0u8),
    ensures
        names::split_at_nul(a.push(0) + b) == seq![a] + names::split_at_nul(b),
        names::split_at_nul(b).len() > 0,
    decreases b.len(),
{
    let whole = a.push(0) + b;
    if b.len() == 0 {
        assert(whole.drop_last() =~= a);
        lemma_split_alone(a);
        assert(names::split_at_nul(whole) =~= seq![a] + names::split_at_nul(b));
    } else {
        lemma_split_first(a, b.drop_last());
        assert(whole.drop_last() =~= a.push(0) + b.drop_last());
        assert(whole.last() == b.last());
        assert(names::split_at_nul(whole) =~= seq![a] + names::split_at_nul(b));
    }
}

/// In a list each name goes up to the next NUL, and the rest of the list is a
/// list; the last name needs none. A list of nothing has no name.
pub proof fn law_list_of_names(a: Seq<u8>, rest: Seq<u8>)
    requires
        !a.contains(0u8),
    ensures
        names::listed_names(a.push(0) + rest) == seq![a] + names::listed_names(rest),
        a.len() > 0 ==> names::listed_names(a) == seq![a],
        a.len() == 0 ==> names::listed_names(a).len() == 0,
{
    lemma_split_alone(a);
    if a.len() > 0 {
        assert(a.contains(a.last()));
    }
    let whole = a.push(0) + rest;
    if rest.len() == 0 {
        assert(whole.drop_last() =~= a);
        assert(names::listed_names(whole) =~= seq![a] + names::listed_names(rest));
    } else {
        assert(whole.last() == rest.last());
        assert(whole.drop_last() =~= a.push(0) + rest.drop_last());
        lemma_split_first(a, rest);
        lemma_split_first(a, rest.drop_last());
    }
}

} // verus!
