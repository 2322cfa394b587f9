//! What a text is: the units that its bytes are read as, and the counts that
//! are taken over a sequence of units.
use crate::ws;
use crate::ws::WsMode;
use vstd::prelude::*;

verus! {

/// One step in the reading of a text: a character, or a byte that belongs to
/// none.
pub enum Unit {
    Char(int),
    Stray,
}

/// How many bytes the unit at `i` takes up.
pub open spec fn step_at(s: Seq<u8>, i: int) -> int {
    if ws::char_at(s, i) {
        ws::sequence_len(s[i])
    } else {
        1
    }
}

/// The unit that starts at `i`.
pub open spec fn unit_at(s: Seq<u8>, i: int) -> Unit {
    if ws::char_at(s, i) {
        Unit::Char(ws::value_of(s, i, ws::sequence_len(s[i])))
    } else {
        Unit::Stray
    }
}

/// The units of `s` from position `i` on, in a multi-byte locale.
pub open spec fn units_from(s: Seq<u8>, i: int) -> Seq<Unit>
    decreases s.len() - i,
{
    if 0 <= i < s.len() {
        seq![unit_at(s, i)] + units_from(s, i + step_at(s, i))
    } else {
        Seq::empty()
    }
}

/// The units of `s` in a multi-byte locale.
pub open spec fn decoded(s: Seq<u8>) -> Seq<Unit> {
    units_from(s, 0)
}

/// The units of `s` in a unibyte locale: each byte is a character.
pub open spec fn bytes_as_chars(s: Seq<u8>) -> Seq<Unit> {
    Seq::new(s.len(), |i: int| Unit::Char(s[i] as int))
}

/// The units of `s` as `mode` reads them.
pub open spec fn units(s: Seq<u8>, mode: WsMode) -> Seq<Unit> {
    if mode.unicode {
        decoded(s)
    } else {
        bytes_as_chars(s)
    }
}

/// The unit delimits words.
pub open spec fn is_space(u: Unit, mode: WsMode) -> bool {
    match u {
        Unit::Char(cp) => ws::delimits(cp, mode),
        Unit::Stray => false,
    }
}

/// The number of newlines.
pub open spec fn line_count(us: Seq<Unit>) -> int
    decreases us.len(),
{
    if us.len() == 0 {
        0
    } else {
        line_count(us.drop_last()) + if us.last() == Unit::Char(0x0a) { 1int } else { 0 }
    }
}

/// The number of characters.
pub open spec fn char_count(us: Seq<Unit>) -> int
    decreases us.len(),
{
    if us.len() == 0 {
        0
    } else {
        char_count(us.drop_last()) + if us.last() is Char { 1int } else { 0 }
    }
}

/// A reader of `us` stands between words at the end: after white space, or
/// with nothing read where it stood between words at the start (`outside`).
pub open spec fn ends_outside(us: Seq<Unit>, outside: bool, mode: WsMode) -> bool {
    if us.len() == 0 {
        outside
    } else {
        is_space(us.last(), mode)
    }
}

/// The number of words that start in `us`: of units that are no white space
/// and follow white space, or come first where `outside` holds.
pub open spec fn word_count(us: Seq<Unit>, outside: bool, mode: WsMode) -> int
    decreases us.len(),
{
    if us.len() == 0 {
        0
    } else {
        word_count(us.drop_last(), outside, mode) + if !is_space(us.last(), mode) && ends_outside(
            us.drop_last(),
            outside,
            mode,
        ) {
            1int
        } else {
            0
        }
    }
}

/// The columns that character `cp` takes up. Outside ASCII a multi-byte
/// locale decides, whose `wcwidth` is `width`; what it gives below 0 counts
/// for nothing.
pub open spec fn columns(cp: int, unicode: bool, width: spec_fn(u32) -> int) -> int {
    if cp < 0x80 {
        if 0x20 <= cp <= 0x7e { 1 } else { 0 }
    } else if !unicode {
        0
    } else if width(cp as u32) > 0 {
        width(cp as u32)
    } else {
        0
    }
}

/// Newline, form feed and carriage return go back to column 0.
pub open spec fn goes_back(u: Unit) -> bool {
    u == Unit::Char(0x0a) || u == Unit::Char(0x0c) || u == Unit::Char(0x0d)
}

/// The column after unit `u`, where it was `col` before. A tab advances to
/// the next multiple of eight; a byte that belongs to no character has no
/// width.
pub open spec fn advance(col: int, u: Unit, unicode: bool, width: spec_fn(u32) -> int) -> int {
    if goes_back(u) {
        0
    } else {
        match u {
            Unit::Char(cp) => if cp == 0x09 {
                col + (8 - col % 8)
            } else {
                col + columns(cp, unicode, width)
            },
            Unit::Stray => col,
        }
    }
}

/// The column after `us`, which is read from column `start`.
pub open spec fn column_after(
    us: Seq<Unit>,
    start: int,
    unicode: bool,
    width: spec_fn(u32) -> int,
) -> int
    decreases us.len(),
{
    if us.len() == 0 {
        start
    } else {
        advance(column_after(us.drop_last(), start, unicode, width), us.last(), unicode, width)
    }
}

/// The greatest column at which a unit of `us` goes back to column 0; 0 if
/// none does.
pub open spec fn longest_return(
    us: Seq<Unit>,
    start: int,
    unicode: bool,
    width: spec_fn(u32) -> int,
) -> int
    decreases us.len(),
{
    if us.len() == 0 {
        0
    } else {
        let before = longest_return(us.drop_last(), start, unicode, width);
        let col = column_after(us.drop_last(), start, unicode, width);
        if goes_back(us.last()) && col > before {
            col
        } else {
            before
        }
    }
}

/// The length of the longest line of `us`, the last one with it.
pub open spec fn longest_line(us: Seq<Unit>, unicode: bool, width: spec_fn(u32) -> int) -> int {
    let ended = longest_return(us, 0, unicode, width);
    let last = column_after(us, 0, unicode, width);
    if last > ended {
        last
    } else {
        ended
    }
}

// ---------------------------------------------------------------------------
// Counts of a concatenation.

pub proof fn lemma_line_count_concat(a: Seq<Unit>, b: Seq<Unit>)
    ensures
        line_count(a + b) == line_count(a) + line_count(b),
    decreases b.len(),
{
    if b.len() == 0 {
        assert(a + b =~= a);
    } else {
        lemma_line_count_concat(a, b.drop_last());
        assert((a + b).drop_last() =~= a + b.drop_last());
    }
}

pub proof fn lemma_char_count_concat(a: Seq<Unit>, b: Seq<Unit>)
    ensures
        char_count(a + b) == char_count(a) + char_count(b),
    decreases b.len(),
{
    if b.len() == 0 {
        assert(a + b =~= a);
    } else {
        lemma_char_count_concat(a, b.drop_last());
        assert((a + b).drop_last() =~= a + b.drop_last());
    }
}

pub proof fn lemma_ends_outside_concat(a: Seq<Unit>, b: Seq<Unit>, outside: bool, mode: WsMode)
    ensures
        ends_outside(a + b, outside, mode) == ends_outside(
            b,
            ends_outside(a, outside, mode),
            mode,
        ),
{
    if b.len() == 0 {
        assert(a + b =~= a);
    }
}

pub proof fn lemma_word_count_concat(a: Seq<Unit>, b: Seq<Unit>, outside: bool, mode: WsMode)
    ensures
        word_count(a + b, outside, mode) == word_count(a, outside, mode) + word_count(
            b,
            ends_outside(a, outside, mode),
            mode,
        ),
    decreases b.len(),
{
    if b.len() == 0 {
        assert(a + b =~= a);
    } else {
        lemma_word_count_concat(a, b.drop_last(), outside, mode);
        lemma_ends_outside_concat(a, b.drop_last(), outside, mode);
        assert((a + b).drop_last() =~= a + b.drop_last());
    }
}

pub proof fn lemma_columns_concat(
    a: Seq<Unit>,
    b: Seq<Unit>,
    start: int,
    unicode: bool,
    width: spec_fn(u32) -> int,
)
    ensures
        column_after(a + b, start, unicode, width) == column_after(
            b,
            column_after(a, start, unicode, width),
            unicode,
            width,
        ),
        longest_return(a + b, start, unicode, width) == ({
            let la = longest_return(a, start, unicode, width);
            let lb = longest_return(b, column_after(a, start, unicode, width), unicode, width);
            if lb > la { lb } else { la }
        }),
    decreases b.len(),
{
    lemma_longest_nonnegative(a, start, unicode, width);
    if b.len() == 0 {
        assert(a + b =~= a);
    } else {
        lemma_columns_concat(a, b.drop_last(), start, unicode, width);
        assert((a + b).drop_last() =~= a + b.drop_last());
    }
}

pub proof fn lemma_longest_nonnegative(
    us: Seq<Unit>,
    start: int,
    unicode: bool,
    width: spec_fn(u32) -> int,
)
    ensures
        longest_return(us, start, unicode, width) >= 0,
    decreases us.len(),
{
    if us.len() > 0 {
        lemma_longest_nonnegative(us.drop_last(), start, unicode, width);
    }
}

/// A column is never negative.
pub proof fn lemma_column_nonnegative(
    us: Seq<Unit>,
    start: int,
    unicode: bool,
    width: spec_fn(u32) -> int,
)
    requires
        start >= 0,
    ensures
        column_after(us, start, unicode, width) >= 0,
    decreases us.len(),
{
    if us.len() > 0 {
        lemma_column_nonnegative(us.drop_last(), start, unicode, width);
    }
}

/// Each count of `us` is at least 0 and at most the number of units.
pub proof fn lemma_count_bounds(us: Seq<Unit>, outside: bool, mode: WsMode)
    ensures
        0 <= line_count(us) <= us.len(),
        0 <= char_count(us) <= us.len(),
        0 <= word_count(us, outside, mode) <= us.len(),
    decreases us.len(),
{
    if us.len() > 0 {
        lemma_count_bounds(us.drop_last(), outside, mode);
    }
}

/// The counts after one more unit.
pub proof fn lemma_counts_push(us: Seq<Unit>, u: Unit, outside: bool, mode: WsMode)
    ensures
        line_count(us.push(u)) == line_count(us) + if u == Unit::Char(0x0a) { 1int } else { 0 },
        char_count(us.push(u)) == char_count(us) + if u is Char { 1int } else { 0 },
        word_count(us.push(u), outside, mode) == word_count(us, outside, mode) + if !is_space(
            u,
            mode,
        ) && ends_outside(us, outside, mode) {
            1int
        } else {
            0
        },
        ends_outside(us.push(u), outside, mode) == is_space(u, mode),
{
    assert(us.push(u).drop_last() =~= us);
}

/// The columns after one more unit.
pub proof fn lemma_columns_push(
    us: Seq<Unit>,
    u: Unit,
    start: int,
    unicode: bool,
    width: spec_fn(u32) -> int,
)
    ensures
        column_after(us.push(u), start, unicode, width) == advance(
            column_after(us, start, unicode, width),
            u,
            unicode,
            width,
        ),
        longest_return(us.push(u), start, unicode, width) == ({
            let before = longest_return(us, start, unicode, width);
            let col = column_after(us, start, unicode, width);
            if goes_back(u) && col > before { col } else { before }
        }),
{
    assert(us.push(u).drop_last() =~= us);
}

// ---------------------------------------------------------------------------
// Where a text can be cut in two.

/// No character of `s` that starts before `p` goes on behind it.
pub open spec fn clean_cut(s: Seq<u8>, p: int) -> bool {
    forall|j: int| 0 <= j < p && #[trigger] ws::char_at(s, j) ==> j + ws::sequence_len(s[j]) <= p
}

/// A unit has at least one byte and ends in the text.
pub proof fn lemma_step(s: Seq<u8>, i: int)
    requires
        0 <= i < s.len(),
    ensures
        1 <= step_at(s, i) <= 6,
        i + step_at(s, i) <= s.len(),
{
}

/// There are no more units than bytes.
pub proof fn lemma_units_len(s: Seq<u8>, i: int)
    requires
        0 <= i <= s.len(),
    ensures
        units_from(s, i).len() <= s.len() - i,
    decreases s.len() - i,
{
    if i < s.len() {
        lemma_step(s, i);
        lemma_units_len(s, i + step_at(s, i));
    }
}

/// The value of a sequence is a function of its bytes.
proof fn lemma_value_same(s: Seq<u8>, i: int, t: Seq<u8>, j: int, k: int)
    requires
        0 <= i,
        0 <= j,
        1 <= k,
        i + k <= s.len(),
        j + k <= t.len(),
        forall|d: int| 0 <= d < k ==> s[i + d] == #[trigger] t[j + d],
    ensures
        ws::value_of(s, i, k) == ws::value_of(t, j, k),
    decreases k,
{
    assert(s[i + 0] == t[j + 0]);
    if k > 1 {
        lemma_value_same(s, i, t, j, k - 1);
        assert(s[i + (k - 1)] == t[j + (k - 1)]);
    }
}

/// A position in two texts that hold the same bytes from there, one of them
/// a sequence's length further, starts the same unit in both.
pub proof fn lemma_same_char(s: Seq<u8>, i: int, t: Seq<u8>, j: int)
    requires
        0 <= i < s.len(),
        0 <= j,
        ws::char_at(s, i),
        j + ws::sequence_len(s[i]) <= t.len(),
        forall|d: int| 0 <= d < ws::sequence_len(s[i]) ==> s[i + d] == #[trigger] t[j + d],
    ensures
        ws::char_at(t, j),
        t[j] == s[i],
        unit_at(t, j) == unit_at(s, i),
        step_at(t, j) == step_at(s, i),
{
    let n = ws::sequence_len(s[i]);
    assert(s[i + 0] == t[j + 0]);
    lemma_value_same(s, i, t, j, n);
    assert forall|k: int| j < k < j + n implies ws::continuation(#[trigger] t[k]) by {
        assert(s[i + (k - j)] == t[j + (k - j)]);
        assert(ws::continuation(s[i + (k - j)]));
    }
}

/// Reading from a position on does not depend on what stands before it.
pub proof fn lemma_units_shift(s: Seq<u8>, p: int, k: int)
    requires
        0 <= p <= s.len(),
        0 <= k <= s.len() - p,
    ensures
        units_from(s, p + k) == units_from(s.skip(p), k),
    decreases s.len() - p - k,
{
    let t = s.skip(p);
    if p + k < s.len() {
        assert(t[k] == s[p + k]);
        if ws::char_at(s, p + k) {
            assert forall|d: int| 0 <= d < ws::sequence_len(s[p + k]) implies s[(p + k) + d]
                == #[trigger] t[k + d] by {}
            lemma_same_char(s, p + k, t, k);
        } else if ws::char_at(t, k) {
            assert forall|d: int| 0 <= d < ws::sequence_len(t[k]) implies t[k + d] == #[trigger] s[(p
                + k) + d] by {}
            lemma_same_char(t, k, s, p + k);
        }
        lemma_step(s, p + k);
        lemma_units_shift(s, p, k + step_at(s, p + k));
    }
}

/// At a clean cut the units before it are those of the bytes before it.
proof fn lemma_units_before(s: Seq<u8>, p: int, i: int)
    requires
        0 <= i <= p <= s.len(),
        clean_cut(s, p),
    ensures
        units_from(s, i) == units_from(s.take(p), i) + units_from(s, p),
    decreases p - i,
{
    let t = s.take(p);
    if i == p {
        assert(units_from(t, i) =~= Seq::empty());
    } else {
        if ws::char_at(s, i) {
            lemma_same_char(s, i, t, i);
        } else if ws::char_at(t, i) {
            lemma_same_char(t, i, s, i);
        }
        lemma_step(s, i);
        let n = step_at(s, i);
        assert(t[i] == s[i]);
        assert(unit_at(t, i) == unit_at(s, i) && step_at(t, i) == n);
        lemma_step(t, i);
        lemma_units_before(s, p, i + n);
        assert(units_from(t, i) == seq![unit_at(t, i)] + units_from(t, i + n));
        assert(units_from(s, i) == seq![unit_at(s, i)] + units_from(s, i + n));
        assert(units_from(s, i) =~= units_from(t, i) + units_from(s, p));
    }
}

/// A text that is cut cleanly is read as its two parts are.
pub proof fn lemma_decoded_split(s: Seq<u8>, p: int)
    requires
        0 <= p <= s.len(),
        clean_cut(s, p),
    ensures
        decoded(s) == decoded(s.take(p)) + decoded(s.skip(p)),
{
    lemma_units_before(s, p, 0);
    lemma_units_shift(s, p, 0);
}

/// Before a byte that continues no sequence, and at the end, a cut is clean.
pub proof fn lemma_clean_before_lead(s: Seq<u8>, p: int)
    requires
        0 <= p <= s.len(),
        p < s.len() ==> !ws::continuation(s[p]),
    ensures
        clean_cut(s, p),
{
    assert forall|j: int| 0 <= j < p && #[trigger] ws::char_at(s, j) implies j + ws::sequence_len(s[j])
        <= p by {
        if j + ws::sequence_len(s[j]) > p {
            assert(ws::continuation(s[p]));
        }
    }
}

/// In a unibyte locale a text can be cut anywhere.
pub proof fn lemma_bytes_split(s: Seq<u8>, p: int)
    requires
        0 <= p <= s.len(),
    ensures
        bytes_as_chars(s) == bytes_as_chars(s.take(p)) + bytes_as_chars(s.skip(p)),
{
    assert(bytes_as_chars(s) =~= bytes_as_chars(s.take(p)) + bytes_as_chars(s.skip(p)));
}

/// In a unibyte locale there are as many characters as bytes.
pub proof fn lemma_bytes_all_chars(s: Seq<u8>)
    ensures
        char_count(bytes_as_chars(s)) == s.len(),
    decreases s.len(),
{
    if s.len() > 0 {
        lemma_bytes_all_chars(s.drop_last());
        assert(bytes_as_chars(s).drop_last() =~= bytes_as_chars(s.drop_last()));
    }
}

proof fn lemma_ascii_from(s: Seq<u8>, i: int)
    requires
        0 <= i <= s.len(),
        forall|k: int| 0 <= k < s.len() ==> #[trigger] s[k] < 0x80,
    ensures
        units_from(s, i) == bytes_as_chars(s).skip(i),
    decreases s.len() - i,
{
    if i < s.len() {
        ws::lemma_ascii_alone(s, i);
        lemma_ascii_from(s, i + 1);
        assert(units_from(s, i) =~= bytes_as_chars(s).skip(i));
    } else {
        assert(units_from(s, i) =~= bytes_as_chars(s).skip(i));
    }
}

/// A text of ASCII alone is read alike in every locale.
pub proof fn lemma_ascii_decoded(s: Seq<u8>)
    requires
        forall|k: int| 0 <= k < s.len() ==> #[trigger] s[k] < 0x80,
    ensures
        decoded(s) == bytes_as_chars(s),
{
    lemma_ascii_from(s, 0);
    assert(bytes_as_chars(s).skip(0) =~= bytes_as_chars(s));
}

/// A text of ASCII alone has the same words under every mode.
pub proof fn lemma_ascii_modes(s: Seq<u8>, outside: bool, m: WsMode, n: WsMode)
    requires
        forall|k: int| 0 <= k < s.len() ==> #[trigger] s[k] < 0x80,
    ensures
        word_count(bytes_as_chars(s), outside, m) == word_count(bytes_as_chars(s), outside, n),
        ends_outside(bytes_as_chars(s), outside, m) == ends_outside(bytes_as_chars(s), outside, n),
    decreases s.len(),
{
    if s.len() > 0 {
        assert(s[s.len() - 1] < 0x80);
        lemma_ascii_modes(s.drop_last(), outside, m, n);
        assert(bytes_as_chars(s).drop_last() =~= bytes_as_chars(s.drop_last()));
    }
}

// ---------------------------------------------------------------------------
// Reading from left to right.

/// The units of `s` from position `i` on, as `mode` reads them.
pub open spec fn units_rest(s: Seq<u8>, mode: WsMode, i: int) -> Seq<Unit> {
    if mode.unicode {
        units_from(s, i)
    } else {
        bytes_as_chars(s).skip(i)
    }
}

/// All units stand before position 0 and none at the end.
pub proof fn lemma_rest_ends(s: Seq<u8>, mode: WsMode)
    ensures
        units_rest(s, mode, 0) == units(s, mode),
        units_rest(s, mode, s.len() as int) == Seq::<Unit>::empty(),
{
    assert(bytes_as_chars(s).skip(0) =~= bytes_as_chars(s));
    assert(units_rest(s, mode, s.len() as int) =~= Seq::<Unit>::empty());
}

/// The unit that `mode` reads at `i`, and how many bytes it has.
pub open spec fn read_at(s: Seq<u8>, mode: WsMode, i: int) -> (Unit, int) {
    if mode.unicode {
        (unit_at(s, i), step_at(s, i))
    } else {
        (Unit::Char(s[i] as int), 1)
    }
}

pub proof fn lemma_rest_step(s: Seq<u8>, mode: WsMode, i: int)
    requires
        0 <= i < s.len(),
    ensures
        units_rest(s, mode, i) == seq![read_at(s, mode, i).0] + units_rest(
            s,
            mode,
            i + read_at(s, mode, i).1,
        ),
        1 <= read_at(s, mode, i).1,
        i + read_at(s, mode, i).1 <= s.len(),
        s[i] < 0x80 ==> read_at(s, mode, i) == (Unit::Char(s[i] as int), 1int),
{
    lemma_step(s, i);
    ws::lemma_ascii_alone(s, i);
    if !mode.unicode {
        assert(bytes_as_chars(s).skip(i) =~= seq![Unit::Char(s[i] as int)] + bytes_as_chars(s).skip(
            i + 1,
        ));
    }
}

/// A stretch of ASCII is read byte by byte.
pub proof fn lemma_rest_ascii(s: Seq<u8>, mode: WsMode, i: int, j: int)
    requires
        0 <= i <= j <= s.len(),
        forall|k: int| i <= k < j ==> #[trigger] s[k] < 0x80,
    ensures
        units_rest(s, mode, i) == bytes_as_chars(s.subrange(i, j)) + units_rest(s, mode, j),
    decreases j - i,
{
    if i < j {
        assert(s[i] < 0x80);
        lemma_rest_step(s, mode, i);
        lemma_rest_ascii(s, mode, i + 1, j);
        assert(units_rest(s, mode, i) =~= bytes_as_chars(s.subrange(i, j)) + units_rest(
            s,
            mode,
            j,
        ));
    } else {
        assert(units_rest(s, mode, i) =~= bytes_as_chars(s.subrange(i, j)) + units_rest(
            s,
            mode,
            j,
        ));
    }
}

/// Characters that are no controls of ASCII neither end a line nor go back
/// nor jump: each adds its own columns.
pub proof fn lemma_steady(us: Seq<Unit>, start: int, unicode: bool, width: spec_fn(u32) -> int)
    requires
        forall|k: int|
            0 <= k < us.len() ==> (#[trigger] us[k]) is Char && us[k]->Char_0 >= 0x20,
    ensures
        column_after(us, start, unicode, width) == start + column_after(us, 0, unicode, width),
        longest_return(us, start, unicode, width) == 0,
        line_count(us) == 0,
        char_count(us) == us.len(),
    decreases us.len(),
{
    if us.len() > 0 {
        assert(us.last() == us[us.len() - 1]);
        assert(us.drop_last().len() == us.len() - 1);
        lemma_steady(us.drop_last(), start, unicode, width);
    }
}

/// Printable ASCII takes one column for each character.
pub proof fn lemma_printable_columns(s: Seq<u8>, unicode: bool, width: spec_fn(u32) -> int)
    requires
        forall|k: int| 0 <= k < s.len() ==> 0x20 <= #[trigger] s[k] <= 0x7e,
    ensures
        column_after(bytes_as_chars(s), 0, unicode, width) == s.len(),
    decreases s.len(),
{
    if s.len() > 0 {
        assert(0x20 <= s[s.len() - 1] <= 0x7e);
        lemma_printable_columns(s.drop_last(), unicode, width);
        assert(bytes_as_chars(s).drop_last() =~= bytes_as_chars(s.drop_last()));
    }
}

/// Units without white space are part of one word.
pub proof fn lemma_one_word(us: Seq<Unit>, outside: bool, mode: WsMode)
    requires
        us.len() > 0,
        forall|k: int| 0 <= k < us.len() ==> !is_space(#[trigger] us[k], mode),
    ensures
        word_count(us, outside, mode) == if outside { 1int } else { 0 },
        !ends_outside(us, outside, mode),
    decreases us.len(),
{
    assert(us.last() == us[us.len() - 1]);
    if us.len() > 1 {
        lemma_one_word(us.drop_last(), outside, mode);
    } else {
        reveal_with_fuel(word_count, 2);
    }
}

// ---------------------------------------------------------------------------
// The end of a text.

/// Where the last unit stands.
pub proof fn lemma_last_unit(s: Seq<u8>, i: int) -> (q: int)
    requires
        0 <= i < s.len(),
    ensures
        i <= q < s.len(),
        q + step_at(s, q) == s.len(),
        units_from(s, i).len() > 0,
        units_from(s, i).last() == unit_at(s, q),
    decreases s.len() - i,
{
    lemma_step(s, i);
    let next = i + step_at(s, i);
    if next == s.len() {
        assert(units_from(s, next).len() == 0);
        i
    } else {
        let q = lemma_last_unit(s, next);
        q
    }
}

/// A character that ends the text is its last unit.
pub proof fn lemma_ends_in_char(s: Seq<u8>, p: int)
    requires
        0 <= p < s.len(),
        ws::char_at(s, p),
        p + ws::sequence_len(s[p]) == s.len(),
    ensures
        decoded(s).len() > 0,
        decoded(s).last() == unit_at(s, p),
{
    lemma_clean_before_lead(s, p);
    lemma_decoded_split(s, p);
    lemma_units_shift(s, p, 0);
    assert(units_from(s, s.len() as int).len() == 0);
    assert(units_from(s, p) =~= seq![unit_at(s, p)]);
}

} // verus!
