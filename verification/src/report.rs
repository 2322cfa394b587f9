//! The rows that are printed.
use crate::count::Counts;
use crate::options;
use crate::options::{Options, OptionsView, TotalMode};
use crate::strings;
use crate::strings::{chars_of, decimal, push_right_aligned, signed_decimal};
use vstd::prelude::*;
use vstd::string::*;

verus! {

/// What an input is.
#[derive(Clone, Copy, PartialEq, Eq, Debug, Structural)]
pub enum FileKind {
    Regular,
    Directory,
    /// A pipe, a terminal, a device or the like.
    Other,
}

/// What is known of an input before it is read: what it is, and its size in
/// bytes.
#[derive(Clone, Copy, PartialEq, Eq, Debug, Structural)]
pub struct InputStat {
    pub kind: FileKind,
    pub len: u64,
}

/// How many counts are printed in a row.
pub open spec fn column_count(o: OptionsView) -> int {
    (if o.print_lines { 1int } else { 0 }) + (if o.print_words { 1int } else { 0 }) + (
    if o.print_chars { 1int } else { 0 }) + (if o.print_bytes { 1int } else { 0 }) + (
    if o.print_linelength { 1int } else { 0 })
}

/// How many counts are printed in a row.
pub fn count_columns(opts: &Options) -> (n: usize)
    ensures
        n == column_count(opts@),
{
    let mut n: usize = 0;
    if opts.print_lines {
        n = n + 1;
    }
    if opts.print_words {
        n = n + 1;
    }
    if opts.print_chars {
        n = n + 1;
    }
    if opts.print_bytes {
        n = n + 1;
    }
    if opts.print_linelength {
        n = n + 1;
    }
    n
}

/// How many inputs there are: one where no file is named, and none where a
/// list of files is empty.
pub open spec fn input_count(o: OptionsView, nfiles: int) -> int {
    if o.files_from is Some && nfiles == 0 {
        0
    } else if nfiles == 0 {
        1
    } else {
        nfiles
    }
}

/// The columns are aligned: more than one number is printed, and more than the
/// row of the totals.
pub open spec fn aligned(o: OptionsView, nfiles: int, nflags: int) -> bool {
    let n = input_count(o, nfiles);
    o.total_mode != TotalMode::Only && n != 0 && !(n == 1 && nflags == 1)
}

/// Are the columns aligned, so that the sizes of the inputs are asked for?
pub fn needs_sizes(opts: &Options, nfiles: usize, nflags: usize) -> (r: bool)
    ensures
        r == aligned(opts@, nfiles as int, nflags as int),
{
    if opts.total_mode == TotalMode::Only {
        return false;
    }
    let listed: bool = opts.files_from.is_some();
    let n: usize = if listed && nfiles == 0 {
        0
    } else if nfiles == 0 {
        1
    } else {
        nfiles
    };
    !(n == 0 || (n == 1 && nflags == 1))
}

/// The size of all regular files among `stats`; what could not be found
/// counts for nothing.
pub open spec fn regular_size(stats: Seq<Option<InputStat>>) -> nat
    decreases stats.len(),
{
    if stats.len() == 0 {
        0
    } else {
        regular_size(stats.drop_last()) + match stats.last() {
            Some(st) => if st.kind is Regular { st.len as nat } else { 0 },
            None => 0,
        }
    }
}

/// One of the inputs is no regular file.
pub open spec fn some_irregular(stats: Seq<Option<InputStat>>) -> bool {
    exists|i: int| 0 <= i < stats.len() && (#[trigger] stats[i] matches Some(st) && st.kind !is Regular)
}

/// The width of a column: that of the size of all regular files, and 7 at
/// least where an input is no regular file.
pub open spec fn size_width(stats: Seq<Option<InputStat>>) -> int {
    let total = if regular_size(stats) > u64::MAX { u64::MAX as nat } else { regular_size(stats) };
    let digits = strings::decimal_text(total).len() as int;
    if some_irregular(stats) && digits < 7 {
        7
    } else {
        digits
    }
}

/// Ten to the power of `k`.
spec fn power_of_ten(k: nat) -> nat
    decreases k,
{
    if k == 0 {
        1
    } else {
        10 * power_of_ten((k - 1) as nat)
    }
}

proof fn lemma_digits_bound(n: nat, k: nat)
    requires
        k >= 1,
        n < power_of_ten(k),
    ensures
        1 <= strings::decimal_text(n).len() <= k,
    decreases k,
{
    reveal_with_fuel(power_of_ten, 2);
    if n >= 10 {
        lemma_digits_bound(n / 10, (k - 1) as nat);
    }
}

/// How many decimal digits `n` has.
fn digit_count(n: u64) -> (width: usize)
    ensures
        width == strings::decimal_text(n as nat).len(),
{
    let mut left: u64 = n;
    let mut width: usize = 1;
    proof {
        assert(power_of_ten(20) == 100_000_000_000_000_000_000nat) by {
            reveal_with_fuel(power_of_ten, 21);
        }
        lemma_digits_bound(n as nat, 20);
    }
    while left >= 10
        invariant
            strings::decimal_text(n as nat).len() == width - 1 + strings::decimal_text(
                left as nat,
            ).len(),
            strings::decimal_text(n as nat).len() <= 20,
        decreases left,
    {
        left = left / 10;
        width = width + 1;
    }
    width
}

/// Column width for the numeric fields.
///
/// It is decided from the *sizes* of the inputs before anything is counted:
/// the sizes of the regular files are summed, and the width is the digit count
/// of that sum. Another input (pipe, terminal, character device) forces a
/// minimum of 7. A single number needs no alignment, and gets width 1.
/// `stats` holds what is known of each of the `nfiles` files, or of standard
/// input where there is none.
pub fn compute_widths(
    opts: &Options,
    nfiles: usize,
    nflags: usize,
    stats: &Vec<Option<InputStat>>,
) -> (widths: [usize; 5])
    ensures
        forall|k: int|
            0 <= k < 5 ==> #[trigger] widths@[k] == if aligned(
                opts@,
                nfiles as int,
                nflags as int,
            ) {
                size_width(stats@)
            } else {
                1
            },
{
    if !needs_sizes(opts, nfiles, nflags) {
        return [1; 5];
    }
    let mut minimum_width: usize = 1;
    let mut regular_total: u64 = 0;
    let mut i: usize = 0;
    while i < stats.len()
        invariant
            i <= stats@.len(),
            regular_total == if regular_size(stats@.take(i as int)) > u64::MAX {
                u64::MAX as nat
            } else {
                regular_size(stats@.take(i as int))
            },
            minimum_width == if some_irregular(stats@.take(i as int)) { 7int } else { 1 },
        decreases stats.len() - i,
    {
        let ghost before = stats@.take(i as int);
        let ghost after = stats@.take(i + 1);
        proof {
            assert(after.drop_last() =~= before);
            assert(after.last() == stats@[i as int]);
            if some_irregular(before) {
                let k = choose|k: int|
                    0 <= k < before.len() && (#[trigger] before[k] matches Some(st) && st.kind !is Regular);
                assert(after[k] == before[k]);
            }
            if some_irregular(after) && !(after.last() matches Some(st) && st.kind !is Regular) {
                let k = choose|k: int|
                    0 <= k < after.len() && (#[trigger] after[k] matches Some(st) && st.kind !is Regular);
                assert(before[k] == after[k]);
            }
        }
        if let Some(st) = stats[i] {
            if st.kind == FileKind::Regular {
                regular_total = regular_total.saturating_add(st.len);
            } else {
                minimum_width = 7;
                assert(after[i as int] == Some(st));
            }
        }
        i = i + 1;
    }
    assert(stats@.take(stats@.len() as int) =~= stats@);
    let width: usize = digit_count(regular_total);
    let wide: usize = if width < minimum_width {
        minimum_width
    } else {
        width
    };
    [wide; 5]
}

/// `fields` with one more, if it is printed.
pub open spec fn with_field(
    fields: Seq<Seq<char>>,
    printed: bool,
    value: Seq<char>,
    width: usize,
) -> Seq<Seq<char>> {
    if printed {
        fields.push(strings::right_aligned(value, width as int))
    } else {
        fields
    }
}

/// The counts of a row, in the order in which they are printed.
pub open spec fn fields(o: OptionsView, c: Counts, widths: Seq<usize>) -> Seq<Seq<char>> {
    let f0 = Seq::<Seq<char>>::empty();
    let f1 = with_field(f0, o.print_lines, strings::decimal_text(c.lines as nat), widths[0]);
    let f2 = with_field(f1, o.print_words, strings::decimal_text(c.words as nat), widths[1]);
    let f3 = with_field(f2, o.print_chars, strings::decimal_text(c.chars as nat), widths[2]);
    let f4 = with_field(f3, o.print_bytes, strings::decimal_text(c.bytes as nat), widths[3]);
    with_field(
        f4,
        o.print_linelength,
        strings::signed_text(c.max_line_length as int),
        widths[4],
    )
}

/// `fields` with a space between each and the next.
pub open spec fn spaced(fields: Seq<Seq<char>>) -> Seq<char>
    decreases fields.len(),
{
    if fields.len() == 0 {
        Seq::empty()
    } else if fields.len() == 1 {
        fields[0]
    } else {
        spaced(fields.drop_last()).push(' ') + fields.last()
    }
}

/// A control character of Unicode.
pub open spec fn is_control(c: char) -> bool {
    c as int <= 0x1f || 0x7f <= c as int <= 0x9f
}

/// How a character is written between the quotes of a quoted name.
pub open spec fn quoted_char(c: char) -> Seq<char> {
    if c == '\n' {
        "'$'\\n''"@
    } else if c == '\t' {
        "'$'\\t''"@
    } else if c == '\r' {
        "'$'\\r''"@
    } else if c == '\'' {
        "'\\''"@
    } else {
        seq![c]
    }
}

/// How the characters of `name` are written between quotes.
pub open spec fn quoted_chars(name: Seq<char>) -> Seq<char>
    decreases name.len(),
{
    if name.len() == 0 {
        Seq::empty()
    } else {
        quoted_chars(name.drop_last()) + quoted_char(name.last())
    }
}

/// How a name is shown: as it is, or between quotes where it holds a control
/// character.
pub open spec fn shown_name(name: Seq<char>) -> Seq<char> {
    if exists|i: int| 0 <= i < name.len() && is_control(#[trigger] name[i]) {
        seq!['\''] + quoted_chars(name) + seq!['\'']
    } else {
        name
    }
}

/// The row of the counts `c`, with the name that stands behind them.
pub open spec fn row_text(
    o: OptionsView,
    c: Counts,
    widths: Seq<usize>,
    name: Option<Seq<char>>,
) -> Seq<char> {
    spaced(fields(o, c, widths)) + match name {
        Some(n) => seq![' '] + shown_name(n),
        None => Seq::empty(),
    } + seq!['\n']
}

/// Append a field, behind a space if it is not the first. Returns whether the
/// next one is the first.
fn add_field(
    s: &mut String,
    first: bool,
    printed: bool,
    value: String,
    width: usize,
    fields: Ghost<Seq<Seq<char>>>,
) -> (r: bool)
    requires
        old(s)@ == spaced(fields@),
        first == (fields@.len() == 0),
    ensures
        final(s)@ == spaced(with_field(fields@, printed, value@, width)),
        r == (with_field(fields@, printed, value@, width).len() == 0),
{
    if !printed {
        return first;
    }
    let ghost more = with_field(fields@, printed, value@, width);
    assert(more.drop_last() =~= fields@);
    if !first {
        s.push(' ');
    }
    push_right_aligned(s, value.as_str(), width);
    assert(s@ =~= spaced(more));
    false
}

/// How a name is shown.
pub fn show_name(name: &str) -> (r: String)
    ensures
        r@ == shown_name(name@),
{
    let chars: Vec<char> = chars_of(name);
    let mut control: bool = false;
    let mut i: usize = 0;
    while i < chars.len()
        invariant
            chars@ == name@,
            i <= chars@.len(),
            control == exists|k: int| 0 <= k < i && is_control(#[trigger] name@[k]),
        decreases chars.len() - i,
    {
        let c: char = chars[i];
        let found: bool = c <= '\u{1f}' || ('\u{7f}' <= c && c <= '\u{9f}');
        assert(found == is_control(name@[i as int]));
        if found {
            control = true;
        }
        i = i + 1;
    }
    if !control {
        return name.to_owned();
    }
    let mut s: String = String::new();
    s.push('\'');
    let mut k: usize = 0;
    assert(s@ =~= seq!['\''] + quoted_chars(name@.take(0)));
    while k < chars.len()
        invariant
            chars@ == name@,
            k <= chars@.len(),
            s@ == seq!['\''] + quoted_chars(name@.take(k as int)),
        decreases chars.len() - k,
    {
        let c: char = chars[k];
        let ghost before = s@;
        proof {
            assert(name@.take(k + 1).drop_last() =~= name@.take(k as int));
            assert(name@.take(k + 1).last() == c);
        }
        if c == '\n' {
            s.append("'$'\\n''");
        } else if c == '\t' {
            s.append("'$'\\t''");
        } else if c == '\r' {
            s.append("'$'\\r''");
        } else if c == '\'' {
            s.append("'\\''");
        } else {
            s.push(c);
        }
        assert(s@ =~= before + quoted_char(c));
        k = k + 1;
        assert(s@ =~= seq!['\''] + quoted_chars(name@.take(k as int)));
    }
    s.push('\'');
    assert(name@.take(name@.len() as int) =~= name@);
    assert(s@ =~= shown_name(name@));
    s
}

/// The row of the counts `c`: those that are asked for, right-aligned in their
/// widths, then the name.
pub fn write_counts(
    opts: &Options,
    c: &Counts,
    widths: &[usize; 5],
    name: Option<&str>,
) -> (r: String)
    ensures
        r@ == row_text(opts@, *c, widths@, options::str_of(name)),
{
    let mut s: String = String::new();
    let ghost f0 = Seq::<Seq<char>>::empty();
    let lines: String = decimal(c.lines);
    let ghost f1 = with_field(f0, opts.print_lines, lines@, widths@[0]);
    let words: String = decimal(c.words);
    let ghost f2 = with_field(f1, opts.print_words, words@, widths@[1]);
    let chars: String = decimal(c.chars);
    let ghost f3 = with_field(f2, opts.print_chars, chars@, widths@[2]);
    let bytes: String = decimal(c.bytes);
    let ghost f4 = with_field(f3, opts.print_bytes, bytes@, widths@[3]);
    let length: String = signed_decimal(c.max_line_length);
    assert(s@ =~= spaced(f0));
    let mut first: bool = true;
    first = add_field(&mut s, first, opts.print_lines, lines, widths[0], Ghost(f0));
    first = add_field(&mut s, first, opts.print_words, words, widths[1], Ghost(f1));
    first = add_field(&mut s, first, opts.print_chars, chars, widths[2], Ghost(f2));
    first = add_field(&mut s, first, opts.print_bytes, bytes, widths[3], Ghost(f3));
    add_field(&mut s, first, opts.print_linelength, length, widths[4], Ghost(f4));
    let ghost counts = s@;
    if let Some(n) = name {
        s.push(' ');
        s.append(show_name(n).as_str());
        assert(s@ =~= counts + (seq![' '] + shown_name(n@)));
    } else {
        assert(s@ =~= counts + Seq::<char>::empty());
    }
    s.push('\n');
    s
}

} // verus!
