//! What holds of the counts as a whole.
use crate::count;
use crate::count::Counts;
use crate::options;
use crate::options::{ArgView, OptionsView, ParsedView, RefusalView, StepView};
use crate::parallel;
use crate::report;
use crate::session;
use crate::stream;
use crate::strings;
use crate::text;
use crate::text::Unit;
use crate::ws;
use crate::ws::WsMode;
use vstd::prelude::*;

verus! {

// ---------------------------------------------------------------------------
// Delimiters.

/// GNU's delimiters are those of the locale and the four non-breaking
/// characters; none is greater than U+3000.
pub proof fn law_gnu_adds_non_breaking(cp: int, unicode: bool)
    ensures
        ws::delimits(cp, (WsMode { unicode, nbsp: true })) == (ws::delimits(
            cp,
            (WsMode { unicode, nbsp: false }),
        ) || ws::non_breaking(cp)),
        unicode && ws::non_breaking(cp) ==> !ws::delimits(cp, (WsMode { unicode, nbsp: false })),
        cp > 0x3000 ==> !ws::delimits(cp, (WsMode { unicode, nbsp: true })),
{
}

/// In a unibyte locale byte 0xA0 is the one delimiter outside ASCII, and under
/// POSIXLY_CORRECT there is none.
pub proof fn law_unibyte_delimiters(b: u8, nbsp: bool)
    requires
        b >= 0x80,
    ensures
        ws::delimits(b as int, (WsMode { unicode: false, nbsp })) == (nbsp && b == ws::NBSP_BYTE),
{
}

/// A byte that leads delimiters outside ASCII.
pub open spec fn leads_space(b: u8) -> bool {
    b == ws::LEAD_C2 || b == ws::LEAD_E1 || b == ws::LEAD_E2 || b == ws::LEAD_E3
}

/// Every delimiter outside ASCII starts with one of four bytes, none of which
/// can continue a sequence.
pub proof fn law_space_leads(s: Seq<u8>, i: int, mode: WsMode)
    requires
        ws::char_at(s, i),
        s[i] >= 0x80,
        text::is_space(text::unit_at(s, i), mode),
    ensures
        leads_space(s[i]),
        !ws::continuation(s[i]),
{
    reveal_with_fuel(ws::value_of, 4);
    ws::lemma_space_len(s, i, mode);
    let n = ws::sequence_len(s[i]);
    assert forall|k: int| i < k < i + n implies 0x80 <= #[trigger] s[k] < 0xC0 by {
        assert(ws::continuation(s[k]));
    }
    assert(0x80 <= s[i + 1] < 0xC0);
    if n == 3 {
        assert(0x80 <= s[i + 2] < 0xC0);
    }
}

/// A block that holds none of the four bytes holds no delimiter outside ASCII.
pub proof fn law_block_without_leads(s: Seq<u8>, i: int, mode: WsMode)
    requires
        0 <= i < s.len(),
        forall|k: int| 0 <= k < s.len() ==> !leads_space(#[trigger] s[k]),
        text::is_space(text::unit_at(s, i), mode),
    ensures
        s[i] < 0x80,
{
    if s[i] >= 0x80 {
        law_space_leads(s, i, mode);
    }
}

/// Under a lead byte of 0xC3 to 0xDF, 0xE4 to 0xEC, 0xEE or 0xEF continuation
/// bytes are enough for a character, and it delimits nothing.
pub proof fn law_plain_leads(s: Seq<u8>, i: int, mode: WsMode)
    requires
        0 <= i < s.len(),
        ws::plain_lead(s[i]),
        i + ws::sequence_len(s[i]) <= s.len(),
        forall|k: int| i < k < i + ws::sequence_len(s[i]) ==> ws::continuation(#[trigger] s[k]),
    ensures
        ws::char_at(s, i),
        !text::is_space(text::unit_at(s, i), mode),
{
    assert(ws::continuation(s[i + 1]));
    if ws::sequence_len(s[i]) == 3 {
        assert(ws::continuation(s[i + 2]));
    }
    ws::lemma_plain_char(s, i);
}

/// A run of characters with such leads is read by itself as it is in its text.
proof fn lemma_plain_run_alone(s: Seq<u8>, i: int)
    requires
        0 <= i <= s.len(),
    ensures
        i <= ws::plain_end(s, i) <= s.len(),
        text::decoded(s.subrange(i, ws::plain_end(s, i))) == ws::plain_run(s, i),
    decreases s.len() - i,
{
    ws::lemma_plain_run(s, i);
    let end = ws::plain_end(s, i);
    let part = s.subrange(i, end);
    if i < s.len() && ws::plain_lead(s[i]) && ws::char_at(s, i) {
        let n = ws::sequence_len(s[i]);
        lemma_plain_run_alone(s, i + n);
        assert forall|d: int| 0 <= d < n implies s[i + d] == #[trigger] part[0 + d] by {}
        text::lemma_same_char(s, i, part, 0);
        text::lemma_units_shift(part, n, 0);
        assert(part.skip(n) =~= s.subrange(i + n, end));
        assert(text::decoded(part) =~= ws::plain_run(s, i));
    } else {
        assert(text::decoded(part) =~= Seq::<Unit>::empty());
    }
}

/// What is measured as a run of such characters is all characters, none of
/// them white space or a newline: no line, one word at most, and as many
/// characters as the run has.
pub proof fn law_plain_run_is_word_material(s: Seq<u8>, i: int, mode: WsMode)
    requires
        0 <= i <= s.len(),
    ensures
        ({
            let us = text::decoded(s.subrange(i, ws::plain_end(s, i)));
            let n = ws::plain_run(s, i).len();
            &&& text::line_count(us) == 0
            &&& text::word_count(us, true, mode) == if n > 0 { 1int } else { 0 }
            &&& text::char_count(us) == n
            &&& text::ends_outside(us, true, mode) == (n == 0)
        }),
{
    lemma_plain_run_alone(s, i);
    ws::lemma_plain_run(s, i);
    let us = ws::plain_run(s, i);
    text::lemma_steady(us, 0, true, |cp: u32| 0int);
    if us.len() > 0 {
        text::lemma_one_word(us, true, mode);
    }
}

// ---------------------------------------------------------------------------
// Encodings.

/// How many bytes the shortest encoding of `v` has.
pub open spec fn encoded_len(v: int) -> int {
    if v < 0x80 {
        1
    } else if v < 0x800 {
        2
    } else if v < 0x1_0000 {
        3
    } else if v < 0x20_0000 {
        4
    } else if v < 0x400_0000 {
        5
    } else {
        6
    }
}

/// What is left of `v` without its last `k` groups of six bits.
pub open spec fn high_bits(v: int, k: int) -> int
    decreases k,
{
    if k <= 0 {
        v
    } else {
        high_bits(v / 64, k - 1)
    }
}

/// The lead byte of a sequence of `n` bytes with the value bits `bits`.
pub open spec fn lead_byte(n: int, bits: int) -> u8 {
    (bits + if n == 1 { 0int } else if n == 2 { 0xC0int } else if n == 3 { 0xE0int } else if n == 4 { 0xF0int } else if n == 5 { 0xF8int } else { 0xFCint }) as u8
}

/// The last `k` groups of six bits of `v`, as continuation bytes.
pub open spec fn continuation_bytes(v: int, k: int) -> Seq<u8>
    decreases k,
{
    if k <= 0 {
        Seq::empty()
    } else {
        continuation_bytes(v / 64, k - 1).push((0x80 + v % 64) as u8)
    }
}

/// The shortest encoding of `v`.
pub open spec fn encoding(v: int) -> Seq<u8> {
    let n = encoded_len(v);
    seq![lead_byte(n, high_bits(v, n - 1))] + continuation_bytes(v, n - 1)
}

/// An encoding is a character.
pub proof fn lemma_encoding_is_char(v: int)
    requires
        0 <= v <= 0x7FFF_FFFF,
        !ws::surrogate(v),
    ensures
        ws::char_at(encoding(v), 0),
        ws::sequence_len(encoding(v)[0]) == encoding(v).len(),
        text::unit_at(encoding(v), 0) == Unit::Char(v),
{
    reveal_with_fuel(high_bits, 7);
    reveal_with_fuel(continuation_bytes, 7);
    reveal_with_fuel(ws::value_of, 7);
    let e = encoding(v);
    let n = encoded_len(v);
    assert(e.len() == n);
    assert(ws::sequence_len(e[0]) == n);
    assert(ws::value_of(e, 0, n) == v);
    assert(ws::char_at(e, 0));
}

/// Every value up to U+7FFFFFFF that is no surrogate is a character, and is
/// read back from its encoding.
pub proof fn law_every_scalar_is_read(v: int)
    requires
        0 <= v <= 0x7FFF_FFFF,
        !ws::surrogate(v),
    ensures
        text::decoded(encoding(v)) == seq![Unit::Char(v)],
{
    let e = encoding(v);
    lemma_encoding_is_char(v);
    assert(text::units_from(e, e.len() as int) =~= Seq::<Unit>::empty());
    assert(text::decoded(e) =~= seq![Unit::Char(v)]);
}

/// Sequences of the same length that write the same number are the same.
proof fn lemma_same_bytes(s: Seq<u8>, i: int, t: Seq<u8>, j: int, k: int)
    requires
        ws::char_at(s, i),
        ws::char_at(t, j),
        ws::sequence_len(s[i]) == ws::sequence_len(t[j]),
        1 <= k <= ws::sequence_len(s[i]),
        ws::value_of(s, i, k) == ws::value_of(t, j, k),
    ensures
        s.subrange(i, i + k) == t.subrange(j, j + k),
    decreases k,
{
    if k > 1 {
        assert(ws::continuation(s[i + k - 1]));
        assert(ws::continuation(t[j + k - 1]));
        lemma_same_bytes(s, i, t, j, k - 1);
        assert(s.subrange(i, i + k) =~= s.subrange(i, i + k - 1).push(s[i + k - 1]));
        assert(t.subrange(j, j + k) =~= t.subrange(j, j + k - 1).push(t[j + k - 1]));
    } else {
        assert(s.subrange(i, i + k) =~= t.subrange(j, j + k));
    }
}

/// A character has one encoding: where the same one is read at two places, the
/// same bytes stand there.
pub proof fn law_one_encoding(s: Seq<u8>, i: int, t: Seq<u8>, j: int)
    requires
        ws::char_at(s, i),
        ws::char_at(t, j),
        text::unit_at(s, i) == text::unit_at(t, j),
    ensures
        ({
            let n = ws::sequence_len(s[i]);
            &&& ws::sequence_len(t[j]) == n
            &&& s.subrange(i, i + n) == t.subrange(j, j + n)
        }),
{
    ws::lemma_value_range(s, i);
    ws::lemma_value_range(t, j);
    lemma_same_bytes(s, i, t, j, ws::sequence_len(s[i]));
}

// ---------------------------------------------------------------------------
// Bytes that belong to no character.

/// A byte that starts no character is consumed alone. It is a byte but no
/// character, has no width, and is part of a word.
pub proof fn law_stray_byte(
    s: Seq<u8>,
    i: int,
    us: Seq<Unit>,
    outside: bool,
    start: int,
    mode: WsMode,
    width: spec_fn(u32) -> int,
)
    requires
        0 <= i < s.len(),
        !ws::char_at(s, i),
    ensures
        text::step_at(s, i) == 1,
        ({
            let more = us.push(text::unit_at(s, i));
            &&& text::char_count(more) == text::char_count(us)
            &&& text::line_count(more) == text::line_count(us)
            &&& text::word_count(more, outside, mode) == text::word_count(us, outside, mode) + if text::ends_outside(us, outside, mode) { 1int } else { 0 }
            &&& !text::ends_outside(more, outside, mode)
            &&& text::column_after(more, start, mode.unicode, width) == text::column_after(
                us,
                start,
                mode.unicode,
                width,
            )
        }),
{
    text::lemma_counts_push(us, Unit::Stray, outside, mode);
    text::lemma_columns_push(us, Unit::Stray, start, mode.unicode, width);
}

/// In a unibyte locale there are as many characters as bytes.
pub proof fn law_unibyte_chars_are_bytes(s: Seq<u8>, mode: WsMode)
    requires
        !mode.unicode,
    ensures
        text::char_count(text::units(s, mode)) == s.len(),
{
    text::lemma_bytes_all_chars(s);
}

/// A text of ASCII alone has the same lines, words and characters in every
/// locale.
pub proof fn law_ascii_everywhere(s: Seq<u8>, outside: bool, m: WsMode, n: WsMode)
    requires
        forall|k: int| 0 <= k < s.len() ==> #[trigger] s[k] < 0x80,
    ensures
        text::units(s, m) == text::units(s, n),
        text::word_count(text::units(s, m), outside, m) == text::word_count(
            text::units(s, n),
            outside,
            n,
        ),
        text::char_count(text::units(s, m)) == s.len(),
{
    text::lemma_ascii_decoded(s);
    text::lemma_ascii_modes(s, outside, m, n);
    text::lemma_bytes_all_chars(s);
}

/// The number of newline bytes of `s` from position `i` on.
pub open spec fn newline_bytes(s: Seq<u8>, i: int) -> int
    decreases s.len() - i,
{
    if 0 <= i < s.len() {
        (if s[i] == 0x0a { 1int } else { 0 }) + newline_bytes(s, i + 1)
    } else {
        0
    }
}

proof fn lemma_no_newlines(s: Seq<u8>, i: int, j: int)
    requires
        0 <= i <= j <= s.len(),
        forall|k: int| i <= k < j ==> #[trigger] s[k] != 0x0a,
    ensures
        newline_bytes(s, i) == newline_bytes(s, j),
    decreases j - i,
{
    if i < j {
        lemma_no_newlines(s, i + 1, j);
    }
}

proof fn lemma_newlines_from(s: Seq<u8>, i: int, mode: WsMode)
    requires
        0 <= i <= s.len(),
    ensures
        text::line_count(text::units_rest(s, mode, i)) == newline_bytes(s, i),
    decreases s.len() - i,
{
    if i < s.len() {
        let (u, n) = text::read_at(s, mode, i);
        let rest = text::units_rest(s, mode, i + n);
        text::lemma_rest_step(s, mode, i);
        ws::lemma_ascii_alone(s, i);
        lemma_newlines_from(s, i + n, mode);
        text::lemma_line_count_concat(seq![u], rest);
        text::lemma_counts_push(Seq::empty(), u, true, mode);
        assert(seq![u] =~= Seq::empty().push(u));
        assert forall|k: int| i + 1 <= k < i + n implies #[trigger] s[k] != 0x0a by {
            assert(ws::continuation(s[k]));
        }
        lemma_no_newlines(s, i + 1, i + n);
        assert(u == Unit::Char(0x0a) <==> s[i] == 0x0a);
    } else {
        text::lemma_rest_ends(s, mode);
    }
}

/// The lines of a text are its newline bytes, in every locale.
pub proof fn law_lines_are_newline_bytes(s: Seq<u8>, mode: WsMode)
    ensures
        text::line_count(text::units(s, mode)) == newline_bytes(s, 0),
{
    text::lemma_rest_ends(s, mode);
    lemma_newlines_from(s, 0, mode);
}

/// A text has no more lines, words and characters than bytes.
pub proof fn law_counts_are_bounded(s: Seq<u8>, outside: bool, mode: WsMode)
    ensures
        0 <= text::line_count(text::units(s, mode)) <= s.len(),
        0 <= text::word_count(text::units(s, mode), outside, mode) <= s.len(),
        0 <= text::char_count(text::units(s, mode)) <= s.len(),
{
    text::lemma_units_len(s, 0);
    text::lemma_count_bounds(text::units(s, mode), outside, mode);
}

// ---------------------------------------------------------------------------
// Columns.

/// A tab goes to the next multiple of eight.
pub proof fn law_tab(col: int, unicode: bool, width: spec_fn(u32) -> int)
    requires
        col >= 0,
    ensures
        ({
            let next = text::advance(col, Unit::Char(0x09), unicode, width);
            &&& col < next <= col + 8
            &&& next % 8 == 0
        }),
{
}

/// Newline, carriage return and form feed go back to column 0; nothing else
/// lessens the column, and a vertical tab, which ends a word, keeps it.
pub proof fn law_columns(col: int, u: Unit, mode: WsMode, width: spec_fn(u32) -> int)
    requires
        col >= 0,
    ensures
        text::goes_back(u) ==> text::advance(col, u, mode.unicode, width) == 0,
        !text::goes_back(u) ==> text::advance(col, u, mode.unicode, width) >= col,
        text::advance(col, Unit::Char(0x0b), mode.unicode, width) == col,
        text::is_space(Unit::Char(0x0b), mode),
{
}

// ---------------------------------------------------------------------------
// Counts of parts.

/// Counts can be put together in any order and any grouping, and the counts of
/// nothing add nothing.
pub proof fn law_merge(a: Counts, b: Counts, c: Counts)
    requires
        a.sums_fit(b),
        b.sums_fit(c),
        a.merged(b).sums_fit(c),
    ensures
        a.merged(b) == b.merged(a),
        a.sums_fit(b.merged(c)),
        a.merged(b).merged(c) == a.merged(b.merged(c)),
        a.max_line_length >= 0 ==> count::no_counts().merged(a) == a,
{
}

/// A text that is cut where no character is cut has the counts of its two
/// parts, where the second is read on from the end of the first, and the
/// longer of their longest lines.
pub proof fn law_parts_add_up(
    s: Seq<u8>,
    p: int,
    outside: bool,
    start: int,
    mode: WsMode,
    width: spec_fn(u32) -> int,
)
    requires
        0 <= p <= s.len(),
        mode.unicode ==> text::clean_cut(s, p),
    ensures
        ({
            let whole = text::units(s, mode);
            let a = text::units(s.take(p), mode);
            let b = text::units(s.skip(p), mode);
            let between = text::ends_outside(a, outside, mode);
            &&& text::line_count(whole) == text::line_count(a) + text::line_count(b)
            &&& text::char_count(whole) == text::char_count(a) + text::char_count(b)
            &&& text::word_count(whole, outside, mode) == text::word_count(a, outside, mode)
                + text::word_count(b, between, mode)
            &&& text::ends_outside(whole, outside, mode) == text::ends_outside(b, between, mode)
            &&& text::column_after(whole, start, mode.unicode, width) == text::column_after(
                b,
                text::column_after(a, start, mode.unicode, width),
                mode.unicode,
                width,
            )
            &&& text::longest_return(whole, start, mode.unicode, width) == ({
                let la = text::longest_return(a, start, mode.unicode, width);
                let lb = text::longest_return(
                    b,
                    text::column_after(a, start, mode.unicode, width),
                    mode.unicode,
                    width,
                );
                if lb > la { lb } else { la }
            })
        }),
{
    let a = text::units(s.take(p), mode);
    let b = text::units(s.skip(p), mode);
    if mode.unicode {
        text::lemma_decoded_split(s, p);
    } else {
        text::lemma_bytes_split(s, p);
    }
    count::lemma_append(a, b, outside, start, mode, width);
}

/// A whole character at the end of a text is never held back.
pub proof fn law_whole_not_held(s: Seq<u8>, p: int, mode: WsMode)
    requires
        ws::char_at(s, p),
        p + ws::sequence_len(s[p]) == s.len(),
    ensures
        stream::held(s, stream::LONG, mode) == 0,
{
    if mode.unicode && !stream::settled(s, stream::LONG) {
        let j = choose|j: int| stream::open_at(s, j, stream::LONG);
        if j < p {
            assert(ws::continuation(s[p]));
        } else if j > p {
            assert(ws::continuation(s[j]));
        }
    }
}

// ---------------------------------------------------------------------------
// The command line.

/// Something is always printed.
pub proof fn law_something_printed(args: Seq<ArgView>, i: int, o: OptionsView)
    ensures
        options::parsed_from(args, i, o) matches ParsedView::Run(p) ==> report::column_count(p)
            >= 1,
    decreases args.len() - i,
{
    if 0 <= i < args.len() {
        let next = if i + 1 < args.len() { Some(args[i + 1].text) } else { None };
        options::lemma_step_size(o, args[i], next);
        options::lemma_no_run(o, args[i], next);
        if let StepView::Next(p, n) = options::arg_step(o, args[i], next) {
            law_something_printed(args, i + n, p);
        }
    }
}

/// The first letter of a short option that stands for no count is refused.
pub proof fn law_other_letters_refused(o: OptionsView, letters: Seq<char>, i: int, k: int)
    requires
        0 <= i <= k < letters.len(),
        forall|j: int| i <= j < k ==> options::letter_column(#[trigger] letters[j]) is Some,
        options::letter_column(letters[k]) is None,
    ensures
        options::letters_step(o, letters, i) == StepView::Stop(
            ParsedView::Refused(RefusalView::UnknownLetter(letters[k])),
        ),
    decreases k - i,
{
    if i < k {
        let c = options::letter_column(letters[i])->0;
        law_other_letters_refused(options::printing(o, c), letters, i + 1, k);
    }
}

/// An argument of ASCII alone has its bytes for its text.
pub proof fn law_ascii_argument(b: Seq<u8>)
    requires
        strings::text_known(b),
        forall|k: int| 0 <= k < b.len() ==> #[trigger] b[k] < 0x80,
    ensures
        strings::lossy_text(b) == Seq::new(b.len(), |k: int| b[k] as char),
{
    let chars = Seq::new(b.len(), |k: int| b[k] as char);
    vstd::utf8::is_ascii_chars_encode_utf8(chars);
    assert(vstd::utf8::encode_utf8(chars) =~= b);
    vstd::utf8::encode_utf8_valid_utf8(chars);
    vstd::utf8::encode_utf8_decode_utf8(chars);
}

/// The bytes of the arguments from the one at `i` on.
pub open spec fn bytes_from(args: Seq<ArgView>, i: int) -> Seq<Seq<u8>> {
    Seq::new((args.len() - i) as nat, |k: int| args[i + k].bytes)
}

/// Behind `--` every argument names a file, whatever it looks like.
pub proof fn law_after_double_dash(args: Seq<ArgView>, i: int, o: OptionsView)
    requires
        0 <= i <= args.len(),
        o.end_of_opts,
    ensures
        options::parsed_from(args, i, o) == ParsedView::Run(
            options::with_defaults(OptionsView { files: o.files + bytes_from(args, i), ..o }),
        ),
    decreases args.len() - i,
{
    if i < args.len() {
        let more = OptionsView { files: o.files.push(args[i].bytes), ..o };
        law_after_double_dash(args, i + 1, more);
        assert(more.files + bytes_from(args, i + 1) =~= o.files + bytes_from(args, i));
    } else {
        assert(o.files + bytes_from(args, i) =~= o.files);
    }
}

// ---------------------------------------------------------------------------
// A run.

/// A run is done when it has made one step for each input, and not before.
pub proof fn law_run_visits_every_input(o: OptionsView, at: int)
    requires
        at >= 0,
    ensures
        (session::action_at(o, at) is Done) == (at >= report::input_count(
            o,
            o.files.len() as int,
        )),
{
}

// ---------------------------------------------------------------------------
// Rows.

/// A row shows what is asked for and nothing else: counts that agree on it
/// have the same row.
pub proof fn law_row_shows_what_is_asked(
    o: OptionsView,
    a: Counts,
    b: Counts,
    widths: Seq<usize>,
    name: Option<Seq<char>>,
)
    requires
        o.print_lines ==> a.lines == b.lines,
        o.print_words ==> a.words == b.words,
        o.print_chars ==> a.chars == b.chars,
        o.print_bytes ==> a.bytes == b.bytes,
        o.print_linelength ==> a.max_line_length == b.max_line_length,
    ensures
        report::row_text(o, a, widths, name) == report::row_text(o, b, widths, name),
{
}

/// A file that is mapped and counted in chunks has the row that its text has:
/// which counts are left out depends on what is printed.
pub proof fn law_chunks_have_the_row_of_the_text(
    o: OptionsView,
    s: Seq<u8>,
    chunked: Counts,
    whole: Counts,
    widths: Seq<usize>,
    name: Option<Seq<char>>,
)
    requires
        !o.print_linelength,
        parallel::part_counts(
            s,
            true,
            o.print_chars,
            o.print_lines || o.print_words,
            o.ws_mode,
            chunked,
        ),
        parallel::part_counts(s, true, true, true, o.ws_mode, whole),
    ensures
        report::row_text(o, chunked, widths, name) == report::row_text(o, whole, widths, name),
{
    law_row_shows_what_is_asked(o, chunked, whole, widths, name);
}

} // verus!
