//! What a text is, said once more from the outside: in code points, bytes and
//! the text that UTF-8 encodes.
use crate::count;
use crate::count::Counts;
use crate::laws;
use crate::parallel;
use crate::stream;
use crate::text;
use crate::text::Unit;
use crate::ws;
use crate::ws::WsMode;
use vstd::prelude::*;

verus! {

// ---------------------------------------------------------------------------
// What separates words.

/// A character separates words if it is one of the six ASCII ones, in a
/// multi-byte locale one of glibc's white space outside ASCII, or, unless
/// POSIXLY_CORRECT is set, one of the four non-breaking ones; and only then. A
/// byte that belongs to no character separates nothing.
pub proof fn law_what_separates_words(cp: int, mode: WsMode)
    ensures
        text::is_space(Unit::Char(cp), mode) <==> {
            ||| cp == 0x09 || cp == 0x0a || cp == 0x0b || cp == 0x0c || cp == 0x0d || cp == 0x20
            ||| mode.unicode && (cp == 0x1680 || 0x2000 <= cp <= 0x2006 || 0x2008 <= cp <= 0x200a
                || cp == 0x2028 || cp == 0x2029 || cp == 0x205f || cp == 0x3000)
            ||| mode.nbsp && (cp == 0xa0 || cp == 0x2007 || cp == 0x202f || cp == 0x2060)
        },
        ws::delimits(cp, mode) == text::is_space(Unit::Char(cp), mode),
        !text::is_space(Unit::Stray, mode),
{
}

/// Predicates that agree on the numbers below `n` pick the same of them.
proof fn lemma_same_picks(n: nat, p: spec_fn(int) -> bool, q: spec_fn(int) -> bool)
    requires
        forall|k: int| 0 <= k < n ==> #[trigger] p(k) == q(k),
    ensures
        Seq::new(n, |k: int| k).filter(p) == Seq::new(n, |k: int| k).filter(q),
    decreases n,
{
    reveal(Seq::filter);
    let s = Seq::new(n, |k: int| k);
    if n > 0 {
        let m = (n - 1) as nat;
        lemma_same_picks(m, p, q);
        assert(s.drop_last() =~= Seq::new(m, |k: int| k));
        assert(p(n - 1) == q(n - 1));
    }
}

/// The number of words is the number of places at which one starts: where
/// something that is no white space follows white space, or stands first and
/// the reader stood between words.
pub proof fn law_words_are_starts(us: Seq<Unit>, outside: bool, mode: WsMode)
    ensures
        text::word_count(us, outside, mode) == Seq::new(us.len(), |k: int| k).filter(
            |k: int|
                !text::is_space(us[k], mode) && (if k == 0 {
                    outside
                } else {
                    text::is_space(us[k - 1], mode)
                }),
        ).len(),
    decreases us.len(),
{
    reveal(Seq::filter);
    let starts = |k: int|
        !text::is_space(us[k], mode) && (if k == 0 {
            outside
        } else {
            text::is_space(us[k - 1], mode)
        });
    let all = Seq::new(us.len(), |k: int| k);
    if us.len() > 0 {
        let before = us.drop_last();
        law_words_are_starts(before, outside, mode);
        let then_starts = |k: int|
            !text::is_space(before[k], mode) && (if k == 0 {
                outside
            } else {
                text::is_space(before[k - 1], mode)
            });
        lemma_same_picks(before.len(), starts, then_starts);
        assert(all.drop_last() =~= Seq::new(before.len(), |k: int| k));
        assert(all.last() == us.len() - 1);
        assert(text::ends_outside(before, outside, mode) == if us.len() == 1 {
            outside
        } else {
            text::is_space(us[us.len() - 2], mode)
        });
    }
}

/// A text without white space is one word, unless it is empty.
pub proof fn law_no_space_one_word(s: Seq<u8>, mode: WsMode)
    requires
        forall|k: int|
            0 <= k < text::units(s, mode).len() ==> !text::is_space(
                #[trigger] text::units(s, mode)[k],
                mode,
            ),
    ensures
        text::word_count(text::units(s, mode), true, mode) == if s.len() > 0 { 1int } else { 0 },
{
    text::lemma_rest_ends(s, mode);
    if s.len() > 0 {
        text::lemma_rest_step(s, mode, 0);
        text::lemma_one_word(text::units(s, mode), true, mode);
    }
}

/// The reader stands between words where the last thing read was white space;
/// where nothing was read it stands where it stood.
pub proof fn law_carry(us: Seq<Unit>, outside: bool, mode: WsMode)
    ensures
        us.len() == 0 ==> text::ends_outside(us, outside, mode) == outside,
        us.len() > 0 ==> text::ends_outside(us, outside, mode) == text::is_space(
            us[us.len() - 1],
            mode,
        ),
{
}

// ---------------------------------------------------------------------------
// Lines and characters.

/// The number of characters is the number of units that are characters.
pub proof fn law_chars_are_chars(us: Seq<Unit>)
    ensures
        text::char_count(us) == us.filter(|u: Unit| u is Char).len(),
    decreases us.len(),
{
    reveal(Seq::filter);
    if us.len() > 0 {
        law_chars_are_chars(us.drop_last());
    }
}

proof fn lemma_newlines_picked(s: Seq<u8>)
    ensures
        laws::newline_bytes(s, 0) == s.filter(|b: u8| b == 0x0a).len(),
    decreases s.len(),
{
    reveal(Seq::filter);
    if s.len() > 0 {
        let t = s.drop_last();
        lemma_newlines_picked(t);
        lemma_newlines_push(t, s.last(), 0);
        assert(t.push(s.last()) =~= s);
    }
}

proof fn lemma_newlines_push(s: Seq<u8>, b: u8, i: int)
    requires
        0 <= i <= s.len(),
    ensures
        laws::newline_bytes(s.push(b), i) == laws::newline_bytes(s, i) + if b == 0x0a {
            1int
        } else {
            0
        },
    decreases s.len() - i,
{
    reveal_with_fuel(laws::newline_bytes, 2);
    if i < s.len() {
        lemma_newlines_push(s, b, i + 1);
    }
}

/// The number of lines is the number of newline bytes, in every locale.
pub proof fn law_lines_are_newlines(s: Seq<u8>, mode: WsMode)
    ensures
        text::line_count(text::units(s, mode)) == s.filter(|b: u8| b == 0x0a).len(),
{
    laws::law_lines_are_newline_bytes(s, mode);
    lemma_newlines_picked(s);
}

// ---------------------------------------------------------------------------
// What bytes are read as.

/// In a unibyte locale the units are the bytes, each the character of its
/// number.
pub proof fn law_unibyte_units(s: Seq<u8>, mode: WsMode)
    requires
        !mode.unicode,
    ensures
        text::units(s, mode) == s.map_values(|b: u8| Unit::Char(b as int)),
{
    assert(text::units(s, mode) =~= s.map_values(|b: u8| Unit::Char(b as int)));
}

proof fn lemma_one_byte(b: u8)
    by (bit_vector)
    requires
        b < 0x80,
    ensures
        b & 0x7F == b,
{
}

proof fn lemma_join_two(b: u8, c1: u8)
    by (bit_vector)
    requires
        0xC0 <= b < 0xE0,
        0x80 <= c1 < 0xC0,
    ensures
        ((((b & 0x1F) as u32) << 6u32) | ((c1 & 0x3f) as u32)) == (b - 0xC0) * 64 + (c1 - 0x80),
{
}

proof fn lemma_join_three(b: u8, c1: u8, c2: u8)
    by (bit_vector)
    requires
        0xE0 <= b < 0xF0,
        0x80 <= c1 < 0xC0,
        0x80 <= c2 < 0xC0,
    ensures
        ((((b & 0x0F) as u32) << 12u32) | (((c1 & 0x3f) as u32) << 6u32) | ((c2 & 0x3f) as u32))
            == ((b - 0xE0) * 64 + (c1 - 0x80)) * 64 + (c2 - 0x80),
{
}

proof fn lemma_join_four(b: u8, c1: u8, c2: u8, c3: u8)
    by (bit_vector)
    requires
        0xF0 <= b < 0xF8,
        0x80 <= c1 < 0xC0,
        0x80 <= c2 < 0xC0,
        0x80 <= c3 < 0xC0,
    ensures
        ((((b & 0x07) as u32) << 18u32) | (((c1 & 0x3f) as u32) << 12u32) | (((c2 & 0x3f) as u32)
            << 6u32) | ((c3 & 0x3f) as u32)) == (((b - 0xF0) * 64 + (c1 - 0x80)) * 64 + (c2 - 0x80))
            * 64 + (c3 - 0x80),
{
}

/// The first character of UTF-8 is read as it is encoded.
proof fn lemma_first_scalar(s: Seq<u8>)
    requires
        s.len() > 0,
        vstd::utf8::valid_first_scalar(s),
    ensures
        ws::char_at(s, 0),
        ws::sequence_len(s[0]) == vstd::utf8::length_of_first_scalar(s),
        ws::value_of(s, 0, ws::sequence_len(s[0])) == vstd::utf8::decode_first_scalar(s),
        vstd::utf8::decode_first_scalar(s) <= 0x10ffff,
{
    reveal_with_fuel(ws::value_of, 5);
    let b = s[0];
    if b < 0x80 {
        lemma_one_byte(b);
    } else if 0xC0 <= b < 0xE0 {
        lemma_join_two(b, s[1]);
    } else if 0xE0 <= b < 0xF0 {
        lemma_join_three(b, s[1], s[2]);
    } else {
        lemma_join_four(b, s[1], s[2], s[3]);
    }
    let n = vstd::utf8::length_of_first_scalar(s);
    assert(ws::sequence_len(b) == n);
    assert forall|k: int| 0 < k < n implies ws::continuation(#[trigger] s[k]) by {}
}

/// In a multi-byte locale a text that is UTF-8 is read as the characters that
/// it encodes.
pub proof fn law_utf8_is_read(s: Seq<u8>, mode: WsMode)
    requires
        mode.unicode,
        vstd::utf8::valid_utf8(s),
    ensures
        text::units(s, mode) == vstd::utf8::decode_utf8(s).map_values(
            |c: char| Unit::Char(c as int),
        ),
    decreases s.len(),
{
    let as_unit = |c: char| Unit::Char(c as int);
    if s.len() > 0 {
        lemma_first_scalar(s);
        let n = vstd::utf8::length_of_first_scalar(s);
        let rest = vstd::utf8::pop_first_scalar(s);
        let c = vstd::utf8::decode_first_scalar(s);
        assert(rest =~= s.skip(n));
        law_utf8_is_read(rest, mode);
        text::lemma_units_shift(s, n, 0);
        let chars = vstd::utf8::decode_utf8(s);
        assert(chars == seq![c as char] + vstd::utf8::decode_utf8(rest));
        assert((c as char) as int == c);
        assert(text::units(s, mode) =~= chars.map_values(as_unit));
    } else {
        assert(text::units(s, mode) =~= vstd::utf8::decode_utf8(s).map_values(as_unit));
    }
}

/// A number that can be a character: up to 31 bits, and no surrogate.
pub open spec fn can_be_char(v: int) -> bool {
    0 <= v <= 0x7fff_ffff && !(0xd800 <= v <= 0xdfff)
}

/// The encoding of `v` stands at the start of `s`.
pub open spec fn starts_with_encoding(s: Seq<u8>, v: int) -> bool {
    can_be_char(v) && laws::encoding(v).is_prefix_of(s)
}

/// The encoding of each character is read as that character, whatever follows
/// it.
pub proof fn law_encoded_is_read(v: int, rest: Seq<u8>)
    requires
        can_be_char(v),
    ensures
        text::decoded(laws::encoding(v) + rest) == seq![Unit::Char(v)] + text::decoded(rest),
{
    let e = laws::encoding(v);
    let s = e + rest;
    let n = e.len() as int;
    laws::lemma_encoding_is_char(v);
    assert forall|d: int| 0 <= d < n implies e[0 + d] == #[trigger] s[0 + d] by {}
    text::lemma_same_char(e, 0, s, 0);
    text::lemma_units_shift(s, n, 0);
    assert(s.skip(n) =~= rest);
}

/// What starts with no encoding starts with a byte that belongs to no
/// character, and is read on behind that one byte. Nothing is read of nothing.
pub proof fn law_other_bytes_are_stray(s: Seq<u8>)
    requires
        forall|v: int| !starts_with_encoding(s, v),
    ensures
        s.len() > 0 ==> text::decoded(s) == seq![Unit::Stray] + text::decoded(s.skip(1)),
        s.len() == 0 ==> text::decoded(s).len() == 0,
{
    if s.len() > 0 {
        if ws::char_at(s, 0) {
            let n = ws::sequence_len(s[0]);
            let v = ws::value_of(s, 0, n);
            ws::lemma_value_range(s, 0);
            laws::lemma_encoding_is_char(v);
            laws::law_one_encoding(s, 0, laws::encoding(v), 0);
            assert(laws::encoding(v).subrange(0, n) =~= laws::encoding(v));
            assert(laws::encoding(v).is_prefix_of(s));
            assert(starts_with_encoding(s, v));
        }
        text::lemma_units_shift(s, 1, 0);
    }
}

// ---------------------------------------------------------------------------
// Columns.

/// Where the column goes behind each thing that is read: to 0 behind newline,
/// form feed and carriage return, to the next multiple of eight behind a tab,
/// one further behind printable ASCII, and nowhere behind another character of
/// ASCII or a stray byte. Outside ASCII it goes on by the locale's width,
/// where that is positive; in a unibyte locale it stays.
pub proof fn law_where_columns_go(
    col: int,
    cp: int,
    unicode: bool,
    width: spec_fn(u32) -> int,
)
    requires
        col >= 0,
        cp >= 0,
    ensures
        ({
            let next = text::advance(col, Unit::Char(cp), unicode, width);
            let w = width(cp as u32);
            &&& cp == 0x0a || cp == 0x0c || cp == 0x0d ==> next == 0
            &&& cp == 0x09 ==> col < next <= col + 8 && next % 8 == 0
            &&& 0x20 <= cp <= 0x7e ==> next == col + 1
            &&& cp == 0x7f || (cp < 0x20 && cp != 0x0a && cp != 0x0c && cp != 0x0d && cp != 0x09)
                ==> next == col
            &&& cp >= 0x80 && unicode && w >= 0 ==> next == col + w
            &&& cp >= 0x80 && unicode && w < 0 ==> next == col
            &&& cp >= 0x80 && !unicode ==> next == col
        }),
        text::advance(col, Unit::Stray, unicode, width) == col,
        // A character's own width is what it adds to the column.
        cp >= 0x80 ==> text::columns(cp, unicode, width) == text::advance(
            col,
            Unit::Char(cp),
            unicode,
            width,
        ) - col,
        0x20 <= cp <= 0x7e ==> text::columns(cp, unicode, width) == 1,
        cp < 0x20 || cp == 0x7f ==> text::columns(cp, unicode, width) == 0,
{
}

/// The column behind a text is where its units lead one after the other.
pub proof fn law_columns_follow_units(
    us: Seq<Unit>,
    start: int,
    unicode: bool,
    width: spec_fn(u32) -> int,
)
    ensures
        text::column_after(us, start, unicode, width) == us.fold_left(
            start,
            |col: int, u: Unit| text::advance(col, u, unicode, width),
        ),
    decreases us.len(),
{
    if us.len() > 0 {
        law_columns_follow_units(us.drop_last(), start, unicode, width);
    }
}

/// The unit ends a line: a newline, a form feed or a carriage return.
pub open spec fn ends_line(u: Unit) -> bool {
    u == Unit::Char(0x0a) || u == Unit::Char(0x0c) || u == Unit::Char(0x0d)
}

/// The longest line that has ended is as long as the greatest column at which
/// a line ends, and 0 where none does.
pub proof fn law_longest_ended_line(
    us: Seq<Unit>,
    start: int,
    unicode: bool,
    width: spec_fn(u32) -> int,
)
    requires
        start >= 0,
    ensures
        ({
            let longest = text::longest_return(us, start, unicode, width);
            &&& forall|k: int|
                0 <= k < us.len() && ends_line(#[trigger] us[k]) ==> text::column_after(
                    us.take(k),
                    start,
                    unicode,
                    width,
                ) <= longest
            &&& longest == 0 || exists|k: int|
                0 <= k < us.len() && ends_line(#[trigger] us[k]) && longest
                    == text::column_after(us.take(k), start, unicode, width)
            &&& longest >= 0
        }),
    decreases us.len(),
{
    if us.len() > 0 {
        let before = us.drop_last();
        let n = us.len() - 1;
        law_longest_ended_line(before, start, unicode, width);
        let was = text::longest_return(before, start, unicode, width);
        let longest = text::longest_return(us, start, unicode, width);
        assert(us.take(n) =~= before);
        assert forall|k: int| 0 <= k < us.len() && ends_line(#[trigger] us[k]) implies
            text::column_after(us.take(k), start, unicode, width) <= longest by {
            if k < n {
                assert(before[k] == us[k]);
                assert(before.take(k) =~= us.take(k));
            }
        }
        if longest != 0 {
            if longest == was {
                let k = choose|k: int|
                    0 <= k < before.len() && ends_line(#[trigger] before[k]) && was
                        == text::column_after(before.take(k), start, unicode, width);
                assert(us[k] == before[k]);
                assert(before.take(k) =~= us.take(k));
            } else {
                assert(ends_line(us[n]));
            }
        }
    }
}

/// The longest line of a text is the longest that has ended, or the last one,
/// which need not have.
pub proof fn law_longest_line(us: Seq<Unit>, unicode: bool, width: spec_fn(u32) -> int)
    ensures
        ({
            let ended = text::longest_return(us, 0, unicode, width);
            let last = text::column_after(us, 0, unicode, width);
            let longest = text::longest_line(us, unicode, width);
            &&& longest >= ended
            &&& longest >= last
            &&& longest == ended || longest == last
        }),
{
}

/// A line of characters outside ASCII is as long as their widths together;
/// where each has width 1, it is as long as they are many.
pub proof fn law_line_of_wide_characters(us: Seq<Unit>, width: spec_fn(u32) -> int)
    requires
        forall|k: int|
            0 <= k < us.len() ==> ((#[trigger] us[k]) matches Unit::Char(cp) && cp >= 0x80),
    ensures
        text::longest_line(us, true, width) == us.fold_left(
            0int,
            |sum: int, u: Unit|
                sum + match u {
                    Unit::Char(cp) => if width(cp as u32) > 0 { width(cp as u32) } else { 0 },
                    Unit::Stray => 0,
                },
        ),
        (forall|k: int|
            0 <= k < us.len() ==> ((#[trigger] us[k]) matches Unit::Char(cp) && width(cp as u32)
                == 1)) ==> text::longest_line(us, true, width) == us.len(),
    decreases us.len(),
{
    text::lemma_steady(us, 0, true, width);
    text::lemma_longest_nonnegative(us, 0, true, width);
    text::lemma_column_nonnegative(us, 0, true, width);
    if us.len() > 0 {
        let before = us.drop_last();
        assert(us.last() == us[us.len() - 1]);
        assert forall|k: int| 0 <= k < before.len() implies ((#[trigger] before[k]) matches
            Unit::Char(cp) && cp >= 0x80) by {
            assert(us[k] == before[k]);
        }
        law_line_of_wide_characters(before, width);
        text::lemma_steady(before, 0, true, width);
        text::lemma_column_nonnegative(before, 0, true, width);
        if forall|k: int|
            0 <= k < us.len() ==> ((#[trigger] us[k]) matches Unit::Char(cp) && width(cp as u32)
                == 1) {
            assert forall|k: int| 0 <= k < before.len() implies ((#[trigger] before[k]) matches
                Unit::Char(cp) && width(cp as u32) == 1) by {
                assert(us[k] == before[k]);
            }
        }
    }
}

// ---------------------------------------------------------------------------
// Counts and their sums.

/// Two counts are put together by adding them up, and the longer line stays;
/// they can be, if each sum fits.
pub proof fn law_merge_adds_up(a: Counts, b: Counts)
    ensures
        a.sums_fit(b) <==> a.lines + b.lines <= 0xffff_ffff_ffff_ffff && a.words + b.words
            <= 0xffff_ffff_ffff_ffff && a.chars + b.chars <= 0xffff_ffff_ffff_ffff && a.bytes
            + b.bytes <= 0xffff_ffff_ffff_ffff,
        a.sums_fit(b) ==> {
            let c = a.merged(b);
            &&& c.lines == a.lines + b.lines
            &&& c.words == a.words + b.words
            &&& c.chars == a.chars + b.chars
            &&& c.bytes == a.bytes + b.bytes
            &&& c.max_line_length >= a.max_line_length && c.max_line_length >= b.max_line_length
            &&& c.max_line_length == a.max_line_length || c.max_line_length == b.max_line_length
        },
        ({
            let z = count::no_counts();
            z.lines == 0 && z.words == 0 && z.chars == 0 && z.bytes == 0 && z.max_line_length == 0
        }),
{
}

/// What is counted in chunks: lines and words where they are wanted, and
/// characters where they are wanted or nothing else is; the bytes always.
pub proof fn law_counts_in_chunks(
    s: Seq<u8>,
    outside: bool,
    want_chars: bool,
    want_ws: bool,
    mode: WsMode,
    r: Counts,
)
    requires
        parallel::part_counts(s, outside, want_chars, want_ws, mode, r),
    ensures
        want_ws ==> r.lines == s.filter(|b: u8| b == 0x0a).len() && r.words == text::word_count(
            text::units(s, mode),
            outside,
            mode,
        ),
        want_chars || !want_ws ==> r.chars == text::units(s, mode).filter(
            |u: Unit| u is Char,
        ).len(),
        !want_ws ==> r.lines == 0 && r.words == 0,
        want_ws && !want_chars ==> r.chars == 0,
        r.bytes == s.len(),
        r.max_line_length == 0,
{
    law_lines_are_newlines(s, mode);
    law_chars_are_chars(text::units(s, mode));
}

/// What is counted in lines: everything, characters where they are wanted.
pub proof fn law_counts_in_lines(
    s: Seq<u8>,
    want_chars: bool,
    mode: WsMode,
    width: spec_fn(u32) -> int,
    r: Counts,
)
    requires
        parallel::line_counts(s, want_chars, mode, width, r),
    ensures
        r.lines == s.filter(|b: u8| b == 0x0a).len(),
        r.words == text::word_count(text::units(s, mode), true, mode),
        want_chars ==> r.chars == text::units(s, mode).filter(|u: Unit| u is Char).len(),
        !want_chars ==> r.chars == 0,
        r.bytes == s.len(),
        r.max_line_length == text::longest_line(text::units(s, mode), mode.unicode, width),
{
    law_lines_are_newlines(s, mode);
    law_chars_are_chars(text::units(s, mode));
}

// ---------------------------------------------------------------------------
// Streams.

/// A character that the next bytes complete is held back from its first byte
/// on: one of two to four bytes by the shorter measure, any by the longer.
pub proof fn law_cut_character_is_held(s: Seq<u8>, more: Seq<u8>, j: int, mode: WsMode)
    requires
        mode.unicode,
        0 <= j < s.len(),
        ws::char_at(s + more, j),
        s.len() < j + text::step_at(s + more, j),
    ensures
        stream::held(s, stream::LONG, mode) == s.len() - j,
        text::step_at(s + more, j) <= 4 ==> stream::held(s, stream::SHORT, mode) == s.len() - j,
{
    let all = s + more;
    let n = ws::sequence_len(all[j]);
    assert(all[j] == s[j]);
    assert forall|k: int| j < k < s.len() implies ws::continuation(#[trigger] s[k]) by {
        assert(ws::continuation(all[k]));
    }
    assert(stream::open_at(s, j, stream::LONG));
    stream::lemma_open_once(s, j, choose|i: int| stream::open_at(s, i, stream::LONG), stream::LONG);
    if n <= 4 {
        assert(stream::open_at(s, j, stream::SHORT));
        stream::lemma_open_once(
            s,
            j,
            choose|i: int| stream::open_at(s, i, stream::SHORT),
            stream::SHORT,
        );
    }
}

/// The last bytes from `j` on are held back if they are a lead and bytes that
/// continue it, fewer than the lead asks for. `incomplete_tail` holds back
/// sequences of up to four bytes alone.
pub proof fn law_what_is_held(s: Seq<u8>, j: int, mode: WsMode)
    requires
        0 <= j < s.len(),
    ensures
        ({
            let lead = s[j];
            let asked = if lead < 0xc0 {
                0int
            } else if lead < 0xe0 {
                2
            } else if lead < 0xf0 {
                3
            } else if lead < 0xf8 {
                4
            } else if lead < 0xfc {
                5
            } else if lead < 0xfe {
                6
            } else {
                0
            };
            let cut = mode.unicode && s.len() - j < asked && forall|k: int|
                j < k < s.len() ==> 0x80 <= #[trigger] s[k] < 0xc0;
            &&& stream::held(s, stream::LONG, mode) == s.len() - j <==> cut
            &&& stream::held(s, stream::SHORT, mode) == s.len() - j <==> cut && asked <= 4
        }),
{
    lemma_held_is_open(s, j, stream::LONG, mode);
    lemma_held_is_open(s, j, stream::SHORT, mode);
    assert((forall|k: int| j < k < s.len() ==> ws::continuation(#[trigger] s[k])) <==> (forall|
        k: int,
    |
        j < k < s.len() ==> 0x80 <= #[trigger] s[k] < 0xc0));
}

proof fn lemma_held_is_open(s: Seq<u8>, j: int, most: usize, mode: WsMode)
    requires
        0 <= j < s.len(),
    ensures
        stream::held(s, most, mode) == s.len() - j <==> mode.unicode && stream::open_at(s, j, most),
{
    if mode.unicode && !stream::settled(s, most) {
        let i = choose|i: int| stream::open_at(s, i, most);
        assert(stream::open_at(s, i, most));
        if stream::open_at(s, j, most) {
            stream::lemma_open_once(s, j, i, most);
        }
    }
}

} // verus!
