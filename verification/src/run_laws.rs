//! What a command line, a row and a run come to, said once more from the
//! outside.
use crate::count::Counts;
use crate::help;
use crate::options;
use crate::options::{
    ArgView, Column, Options, OptionsView, Parsed, ParsedView, Refusal, RefusalView, StepView,
    TotalMode,
};
use crate::parallel;
use crate::report;
use crate::report::{FileKind, InputStat};
use crate::session;
use crate::session::{Action, ActionView, Outcome, Route, Start};
use crate::strings;
use vstd::prelude::*;

verus! {

// ---------------------------------------------------------------------------
// The command line.

/// `p` differs from `o` in nothing but the counts that are printed.
pub open spec fn same_but_counts(o: OptionsView, p: OptionsView) -> bool {
    &&& p.debug == o.debug
    &&& p.end_of_opts == o.end_of_opts
    &&& p.total_mode == o.total_mode
    &&& p.files_from == o.files_from
    &&& p.files == o.files
    &&& p.ws_mode == o.ws_mode
}

/// The options are seen as they are, field by field.
pub proof fn law_options_are_seen(o: Options, k: int)
    ensures
        o@.print_lines == o.print_lines,
        o@.print_words == o.print_words,
        o@.print_chars == o.print_chars,
        o@.print_bytes == o.print_bytes,
        o@.print_linelength == o.print_linelength,
        o@.debug == o.debug,
        o@.end_of_opts == o.end_of_opts,
        o@.total_mode == o.total_mode,
        o@.ws_mode == o.ws_mode,
        o@.files_from is Some == o.files_from is Some,
        o.files_from is Some ==> o@.files_from->0 == o.files_from->0@,
        o@.files.len() == o.files@.len(),
        0 <= k < o.files@.len() ==> o@.files[k] == o.files@[k]@,
{
}

/// What a run does, and what a command line comes to, is seen as it is.
pub proof fn law_results_are_seen(action: Action, parsed: Parsed, refusal: Refusal)
    ensures
        action@ is CountStdin == action is CountStdin,
        action@ is Done == action is Done,
        action matches Action::CountFile(name) ==> action@ == ActionView::CountFile(name@),
        action matches Action::Say(t) ==> action@ == ActionView::Say(t@),
        parsed@ is Help == parsed is Help,
        parsed@ is Version == parsed is Version,
        parsed matches Parsed::Run(o) ==> parsed@ == ParsedView::Run(o@),
        parsed matches Parsed::Refused(r) ==> parsed@ == ParsedView::Refused(r@),
        refusal@ is FilesFromNeedsValue == refusal is FilesFromNeedsValue,
        refusal@ is TotalNeedsValue == refusal is TotalNeedsValue,
        refusal matches Refusal::UnknownTotal(t) ==> refusal@ == RefusalView::UnknownTotal(t@),
        refusal matches Refusal::UnknownOption(t) ==> refusal@ == RefusalView::UnknownOption(t@),
        refusal matches Refusal::UnknownLetter(c) ==> refusal@ == RefusalView::UnknownLetter(c),
{
}

/// Asking for one more count adds that count to those that are printed, and
/// changes nothing else.
pub proof fn law_one_more_count(o: OptionsView, column: Column)
    ensures
        ({
            let p = options::printing(o, column);
            &&& p.print_lines == (o.print_lines || column == Column::Lines)
            &&& p.print_words == (o.print_words || column == Column::Words)
            &&& p.print_chars == (o.print_chars || column == Column::Chars)
            &&& p.print_bytes == (o.print_bytes || column == Column::Bytes)
            &&& p.print_linelength == (o.print_linelength || column == Column::LineLength)
            &&& same_but_counts(o, p)
        }),
{
}

/// The letter stands for a count.
pub open spec fn count_letter(c: char) -> bool {
    c == 'c' || c == 'm' || c == 'l' || c == 'w' || c == 'L'
}

proof fn lemma_letters_from(o: OptionsView, letters: Seq<char>, i: int)
    requires
        0 <= i <= letters.len(),
        forall|k: int| i <= k < letters.len() ==> count_letter(#[trigger] letters[k]),
    ensures
        options::letters_step(o, letters, i) matches StepView::Next(p, n) && {
            &&& n == 1
            &&& p.print_lines == (o.print_lines || letters.skip(i).contains('l'))
            &&& p.print_words == (o.print_words || letters.skip(i).contains('w'))
            &&& p.print_chars == (o.print_chars || letters.skip(i).contains('m'))
            &&& p.print_bytes == (o.print_bytes || letters.skip(i).contains('c'))
            &&& p.print_linelength == (o.print_linelength || letters.skip(i).contains('L'))
            &&& same_but_counts(o, p)
        },
    decreases letters.len() - i,
{
    let rest = letters.skip(i);
    if i < letters.len() {
        let c = letters[i];
        assert(count_letter(c));
        lemma_letters_from(options::printing(o, options::letter_column(c)->0), letters, i + 1);
        let tail = letters.skip(i + 1);
        assert(rest =~= seq![c] + tail);
        assert forall|x: char| #[trigger] rest.contains(x) <==> (x == c || tail.contains(x)) by {
            if x == c {
                assert(rest[0] == x);
            }
            if tail.contains(x) {
                let k = choose|k: int| 0 <= k < tail.len() && tail[k] == x;
                assert(rest[k + 1] == x);
            }
            if rest.contains(x) && x != c {
                let k = choose|k: int| 0 <= k < rest.len() && rest[k] == x;
                assert(tail[k - 1] == x);
            }
        }
    }
}

/// A group of the letters c, m, l, w and L asks for the counts of its letters,
/// in whatever order they come, beside those that were asked for before.
pub proof fn law_group_of_letters(o: OptionsView, letters: Seq<char>)
    requires
        forall|k: int| 0 <= k < letters.len() ==> count_letter(#[trigger] letters[k]),
    ensures
        options::letters_step(o, letters, 0) matches StepView::Next(p, n) && {
            &&& n == 1
            &&& p.print_lines == (o.print_lines || letters.contains('l'))
            &&& p.print_words == (o.print_words || letters.contains('w'))
            &&& p.print_chars == (o.print_chars || letters.contains('m'))
            &&& p.print_bytes == (o.print_bytes || letters.contains('c'))
            &&& p.print_linelength == (o.print_linelength || letters.contains('L'))
            &&& same_but_counts(o, p)
        },
{
    lemma_letters_from(o, letters, 0);
    assert(letters.skip(0) =~= letters);
}

proof fn lemma_bad_letter_from(o: OptionsView, letters: Seq<char>, i: int, k: int)
    requires
        0 <= i <= k < letters.len(),
        forall|j: int| i <= j < k ==> count_letter(#[trigger] letters[j]),
        !count_letter(letters[k]),
    ensures
        options::letters_step(o, letters, i) == StepView::Stop(
            ParsedView::Refused(RefusalView::UnknownLetter(letters[k])),
        ),
    decreases k - i,
{
    if i < k {
        assert(count_letter(letters[i]));
        let c = options::letter_column(letters[i])->0;
        lemma_bad_letter_from(options::printing(o, c), letters, i + 1, k);
    }
}

/// A group with another letter is refused for the first such letter.
pub proof fn law_group_with_another_letter(o: OptionsView, letters: Seq<char>, k: int)
    requires
        0 <= k < letters.len(),
        forall|j: int| 0 <= j < k ==> count_letter(#[trigger] letters[j]),
        !count_letter(letters[k]),
    ensures
        options::letters_step(o, letters, 0) == StepView::Stop(
            ParsedView::Refused(RefusalView::UnknownLetter(letters[k])),
        ),
{
    lemma_bad_letter_from(o, letters, 0, k);
}

/// The names of the long options are different from one another.
proof fn lemma_names_differ()
    ensures
        ({
            let names = seq![
                "--bytes"@,
                "--chars"@,
                "--lines"@,
                "--words"@,
                "--max-line-length"@,
                "--debug"@,
                "--help"@,
                "--version"@,
                "--files0-from"@,
                "--total"@,
            ];
            forall|i: int, j: int|
                0 <= i < j < names.len() ==> #[trigger] names[i] != #[trigger] names[j]
        }),
{
    reveal_strlit("--bytes");
    reveal_strlit("--chars");
    reveal_strlit("--lines");
    reveal_strlit("--words");
    reveal_strlit("--max-line-length");
    reveal_strlit("--debug");
    reveal_strlit("--help");
    reveal_strlit("--version");
    reveal_strlit("--files0-from");
    reveal_strlit("--total");
    let names = seq![
        "--bytes"@,
        "--chars"@,
        "--lines"@,
        "--words"@,
        "--max-line-length"@,
        "--debug"@,
        "--help"@,
        "--version"@,
        "--files0-from"@,
        "--total"@,
    ];
    assert(names[0][2] == 'b' && names[1][2] == 'c' && names[2][2] == 'l' && names[3][2] == 'w'
        && names[4][2] == 'm' && names[5][2] == 'd' && names[6][2] == 'h' && names[7][2] == 'v'
        && names[8][2] == 'f' && names[9][2] == 't');
}

/// A long option for a count does what its letter does, whatever stands behind
/// its sign.
pub proof fn law_long_names_are_letters(
    o: OptionsView,
    value: Option<Seq<char>>,
    next: Option<Seq<char>>,
)
    ensures
        options::named_step(o, "--lines"@, value, next) == options::letters_step(o, seq!['l'], 0),
        options::named_step(o, "--words"@, value, next) == options::letters_step(o, seq!['w'], 0),
        options::named_step(o, "--chars"@, value, next) == options::letters_step(o, seq!['m'], 0),
        options::named_step(o, "--bytes"@, value, next) == options::letters_step(o, seq!['c'], 0),
        options::named_step(o, "--max-line-length"@, value, next) == options::letters_step(
            o,
            seq!['L'],
            0,
        ),
{
    lemma_names_differ();
    reveal_with_fuel(options::letters_step, 2);
    let names = seq![
        "--bytes"@,
        "--chars"@,
        "--lines"@,
        "--words"@,
        "--max-line-length"@,
        "--debug"@,
        "--help"@,
        "--version"@,
        "--files0-from"@,
        "--total"@,
    ];
    assert(names[0] != names[1] && names[0] != names[2] && names[0] != names[3] && names[0]
        != names[4] && names[1] != names[2] && names[1] != names[3] && names[1] != names[4]
        && names[2] != names[3] && names[2] != names[4] && names[3] != names[4]);
}

/// The other long options: `--debug` turns debugging on and changes nothing
/// else, `--help` and `--version` end the command line, and a name that is
/// none of the ten is refused.
pub proof fn law_other_long_names(
    o: OptionsView,
    name: Seq<char>,
    value: Option<Seq<char>>,
    next: Option<Seq<char>>,
)
    ensures
        options::named_step(o, "--debug"@, value, next) == StepView::Next(
            OptionsView { debug: true, ..o },
            1,
        ),
        options::named_step(o, "--help"@, value, next) == StepView::Stop(ParsedView::Help),
        options::named_step(o, "--version"@, value, next) == StepView::Stop(ParsedView::Version),
        name != "--bytes"@ && name != "--chars"@ && name != "--lines"@ && name != "--words"@
            && name != "--max-line-length"@ && name != "--debug"@ && name != "--help"@ && name
            != "--version"@ && name != "--files0-from"@ && name != "--total"@
            ==> options::named_step(o, name, value, next) == StepView::Stop(
            ParsedView::Refused(RefusalView::UnknownOption(name)),
        ),
{
    lemma_names_differ();
    let names = seq![
        "--bytes"@,
        "--chars"@,
        "--lines"@,
        "--words"@,
        "--max-line-length"@,
        "--debug"@,
        "--help"@,
        "--version"@,
        "--files0-from"@,
        "--total"@,
    ];
    assert(names[0] != names[5] && names[1] != names[5] && names[2] != names[5] && names[3]
        != names[5] && names[4] != names[5]);
    assert(names[0] != names[6] && names[1] != names[6] && names[2] != names[6] && names[3]
        != names[6] && names[4] != names[6] && names[5] != names[6]);
    assert(names[0] != names[7] && names[1] != names[7] && names[2] != names[7] && names[3]
        != names[7] && names[4] != names[7] && names[5] != names[7] && names[6] != names[7]);
}

/// The options that take a value. It stands behind the sign or is the next
/// argument, which is then used up; without either the option is refused.
/// `--files0-from` takes any value. `--total` takes auto, always, only and
/// never, and is refused with another. Nothing else changes.
pub proof fn law_options_with_a_value(o: OptionsView, v: Seq<char>, next: Option<Seq<char>>)
    ensures
        options::named_step(o, "--files0-from"@, Some(v), next) == StepView::Next(
            OptionsView { files_from: Some(v), ..o },
            1,
        ),
        options::named_step(o, "--files0-from"@, None, Some(v)) == StepView::Next(
            OptionsView { files_from: Some(v), ..o },
            2,
        ),
        options::named_step(o, "--files0-from"@, None, None) == StepView::Stop(
            ParsedView::Refused(RefusalView::FilesFromNeedsValue),
        ),
        options::named_step(o, "--total"@, None, None) == StepView::Stop(
            ParsedView::Refused(RefusalView::TotalNeedsValue),
        ),
        ({
            let behind = options::named_step(o, "--total"@, Some(v), next);
            let apart = options::named_step(o, "--total"@, None, Some(v));
            let known = v == "auto"@ || v == "always"@ || v == "only"@ || v == "never"@;
            &&& !known ==> behind == StepView::Stop(
                ParsedView::Refused(RefusalView::UnknownTotal(v)),
            ) && apart == behind
            &&& known ==> {
                &&& behind matches StepView::Next(p, n) && n == 1 && p == (OptionsView {
                    total_mode: p.total_mode,
                    ..o
                }) && apart == StepView::Next(p, 2)
                &&& behind matches StepView::Next(p, n) && {
                    &&& p.total_mode == TotalMode::Auto <==> v == "auto"@
                    &&& p.total_mode == TotalMode::Always <==> v == "always"@
                    &&& p.total_mode == TotalMode::Only <==> v == "only"@
                    &&& p.total_mode == TotalMode::Never <==> v == "never"@
                }
            }
        }),
{
    lemma_names_differ();
    let names = seq![
        "--bytes"@,
        "--chars"@,
        "--lines"@,
        "--words"@,
        "--max-line-length"@,
        "--debug"@,
        "--help"@,
        "--version"@,
        "--files0-from"@,
        "--total"@,
    ];
    assert(names[0] != names[8] && names[1] != names[8] && names[2] != names[8] && names[3]
        != names[8] && names[4] != names[8] && names[5] != names[8] && names[6] != names[8]
        && names[7] != names[8]);
    assert(names[0] != names[9] && names[1] != names[9] && names[2] != names[9] && names[3]
        != names[9] && names[4] != names[9] && names[5] != names[9] && names[6] != names[9]
        && names[7] != names[9] && names[8] != names[9]);
    reveal_strlit("auto");
    reveal_strlit("always");
    reveal_strlit("only");
    reveal_strlit("never");
    assert("auto"@[0] == 'a' && "auto"@.len() == 4);
    assert("always"@[0] == 'a' && "always"@.len() == 6);
    assert("only"@[0] == 'o' && "only"@.len() == 4);
    assert("never"@[0] == 'n' && "never"@.len() == 5);
}

proof fn lemma_first_equals(t: Seq<char>, i: int)
    requires
        0 <= i <= t.len(),
    ensures
        i <= options::first_equals(t, i) <= t.len(),
        forall|k: int| i <= k < options::first_equals(t, i) ==> #[trigger] t[k] != '=',
        options::first_equals(t, i) < t.len() ==> t[options::first_equals(t, i)] == '=',
    decreases t.len() - i,
{
    if i < t.len() && t[i] != '=' {
        lemma_first_equals(t, i + 1);
    }
}

/// A long option is its name, and where it holds a sign, the first one and the
/// value behind it.
pub proof fn law_name_and_value(t: Seq<char>)
    ensures
        !options::option_name(t).contains('='),
        options::option_value(t) is Some == t.contains('='),
        options::option_value(t) matches Some(v) ==> t == options::option_name(t).push('=') + v,
        options::option_value(t) is None ==> t == options::option_name(t),
{
    lemma_first_equals(t, 0);
    let k = options::first_equals(t, 0);
    let name = options::option_name(t);
    assert forall|j: int| 0 <= j < name.len() implies name[j] != '=' by {
        assert(t[j] != '=');
    }
    if k < t.len() {
        assert(t[k] == '=');
        assert(t =~= name.push('=') + t.skip(k + 1));
    } else {
        assert(t =~= name);
        assert(!t.contains('='));
    }
}

/// The argument names a file: `--` came before it, it is a dash alone, or it
/// has no dash in front.
pub open spec fn names_a_file(end_of_opts: bool, b: Seq<u8>) -> bool {
    end_of_opts || b.len() == 0 || b[0] != 0x2d || b.len() == 1
}

/// A file is added behind those before it, as its bytes are, and changes
/// nothing else. No option changes the files. Two dashes alone end the
/// options.
pub proof fn law_files_and_options(o: OptionsView, a: ArgView, next: Option<Seq<char>>)
    ensures
        names_a_file(o.end_of_opts, a.bytes) ==> options::arg_step(o, a, next) == StepView::Next(
            OptionsView { files: o.files.push(a.bytes), ..o },
            1,
        ),
        !names_a_file(o.end_of_opts, a.bytes) && a.bytes == seq![0x2du8, 0x2du8]
            ==> options::arg_step(o, a, next) == StepView::Next(
            OptionsView { end_of_opts: true, ..o },
            1,
        ),
        !names_a_file(o.end_of_opts, a.bytes) && a.bytes.len() > 2 && a.bytes[1] == 0x2d
            ==> options::arg_step(o, a, next) == options::long_step(o, a.text, next),
        !names_a_file(o.end_of_opts, a.bytes) && a.bytes[1] != 0x2d ==> options::arg_step(
            o,
            a,
            next,
        ) == options::letters_step(o, a.letters, 0),
        !names_a_file(o.end_of_opts, a.bytes) ==> (options::arg_step(o, a, next) matches
            StepView::Next(p, n) ==> p.files == o.files && p.ws_mode == o.ws_mode),
{
    let b = a.bytes;
    if b.len() == 1 && b[0] == 0x2d {
        assert(b =~= seq![0x2du8]);
    }
    if b.len() == 2 && b[0] == 0x2d && b[1] == 0x2d {
        assert(b =~= seq![0x2du8, 0x2du8]);
    }
    assert(seq![0x2du8].len() == 1 && seq![0x2du8][0] == 0x2d);
    assert(seq![0x2du8, 0x2du8].len() == 2 && seq![0x2du8, 0x2du8][1] == 0x2d);
    lemma_letters_keep_files(o, a.letters, 0);
}

proof fn lemma_letters_keep_files(o: OptionsView, letters: Seq<char>, i: int)
    ensures
        options::letters_step(o, letters, i) matches StepView::Next(p, n) ==> p.files == o.files
            && p.ws_mode == o.ws_mode,
    decreases letters.len() - i,
{
    if 0 <= i < letters.len() {
        let c = options::letter_column(letters[i])->0;
        lemma_letters_keep_files(options::printing(o, c), letters, i + 1);
    }
}

/// Where no count is asked for, lines, words and bytes are printed; else what
/// is asked for.
pub proof fn law_default_counts(o: OptionsView)
    ensures
        ({
            let p = options::with_defaults(o);
            let none = !o.print_lines && !o.print_words && !o.print_chars && !o.print_bytes
                && !o.print_linelength;
            &&& p.print_lines == (o.print_lines || none)
            &&& p.print_words == (o.print_words || none)
            &&& p.print_bytes == (o.print_bytes || none)
            &&& p.print_chars == o.print_chars
            &&& p.print_linelength == o.print_linelength
            &&& same_but_counts(o, p)
        }),
{
}

/// The options before the first argument choose nothing.
pub proof fn law_nothing_chosen(mode: crate::ws::WsMode)
    ensures
        ({
            let o = options::no_options(mode);
            &&& !o.print_lines && !o.print_words && !o.print_chars && !o.print_bytes
                && !o.print_linelength
            &&& !o.debug && !o.end_of_opts
            &&& o.total_mode == TotalMode::Auto
            &&& o.files_from is None
            &&& o.files.len() == 0
            &&& o.ws_mode == mode
        }),
{
}

/// An argument that is a group of letters: one dash in front, and no other
/// behind it.
pub open spec fn is_group(b: Seq<u8>) -> bool {
    b.len() > 1 && b[0] == 0x2d && b[1] != 0x2d
}

/// A group among `args` holds the letter `c`.
pub open spec fn some_group_has(args: Seq<ArgView>, c: char) -> bool {
    exists|k: int|
        0 <= k < args.len() && is_group((#[trigger] args[k]).bytes) && args[k].letters.contains(c)
}

proof fn lemma_some_group(args: Seq<ArgView>, c: char)
    requires
        args.len() > 0,
    ensures
        some_group_has(args, c) <==> (is_group(args[0].bytes) && args[0].letters.contains(c))
            || some_group_has(args.skip(1), c),
{
    let rest = args.skip(1);
    if some_group_has(args, c) {
        let k = choose|k: int|
            0 <= k < args.len() && is_group((#[trigger] args[k]).bytes) && args[k].letters.contains(
                c,
            );
        if k > 0 {
            assert(rest[k - 1] == args[k]);
        }
    }
    if some_group_has(rest, c) {
        let k = choose|k: int|
            0 <= k < rest.len() && is_group((#[trigger] rest[k]).bytes) && rest[k].letters.contains(
                c,
            );
        assert(args[k + 1] == rest[k]);
    }
}

proof fn lemma_filter_first(args: Seq<ArgView>, p: spec_fn(ArgView) -> bool)
    requires
        args.len() > 0,
    ensures
        args.filter(p) == (if p(args[0]) {
            seq![args[0]]
        } else {
            Seq::<ArgView>::empty()
        }) + args.skip(1).filter(p),
{
    reveal(Seq::filter);
    let one = seq![args[0]];
    assert(args =~= one + args.skip(1));
    Seq::filter_distributes_over_add(one, args.skip(1), p);
    assert(one.drop_last() =~= Seq::<ArgView>::empty());
    assert(one.drop_last().filter(p) =~= Seq::<ArgView>::empty());
    assert(one.filter(p) =~= if p(args[0]) { one } else { Seq::<ArgView>::empty() });
}

proof fn lemma_letters_and_files_from(args: Seq<ArgView>, i: int, o: OptionsView)
    requires
        0 <= i <= args.len(),
        !o.end_of_opts,
        forall|k: int|
            0 <= k < args.len() ==> names_a_file(false, (#[trigger] args[k]).bytes) || is_group(
                args[k].bytes,
            ),
        forall|k: int, j: int|
            0 <= k < args.len() && is_group(args[k].bytes) && 0 <= j < args[k].letters.len()
                ==> count_letter(#[trigger] args[k].letters[j]),
    ensures
        ({
            let rest = args.skip(i);
            options::parsed_from(args, i, o) == ParsedView::Run(
                options::with_defaults(
                    OptionsView {
                        print_lines: o.print_lines || some_group_has(rest, 'l'),
                        print_words: o.print_words || some_group_has(rest, 'w'),
                        print_chars: o.print_chars || some_group_has(rest, 'm'),
                        print_bytes: o.print_bytes || some_group_has(rest, 'c'),
                        print_linelength: o.print_linelength || some_group_has(rest, 'L'),
                        files: o.files + rest.filter(|a: ArgView| !is_group(a.bytes)).map_values(
                            |a: ArgView| a.bytes,
                        ),
                        ..o
                    },
                ),
            )
        }),
    decreases args.len() - i,
{
    let rest = args.skip(i);
    let is_file = |a: ArgView| !is_group(a.bytes);
    let bytes_of = |a: ArgView| a.bytes;
    if i < args.len() {
        let a = args[i];
        let next = if i + 1 < args.len() { Some(args[i + 1].text) } else { None };
        let tail = args.skip(i + 1);
        assert(rest.skip(1) =~= tail);
        assert(rest[0] == a);
        law_files_and_options(o, a, next);
        lemma_filter_first(rest, is_file);
        lemma_some_group(rest, 'l');
        lemma_some_group(rest, 'w');
        lemma_some_group(rest, 'm');
        lemma_some_group(rest, 'c');
        lemma_some_group(rest, 'L');
        let files = rest.filter(is_file).map_values(bytes_of);
        let tail_files = tail.filter(is_file).map_values(bytes_of);
        if is_group(a.bytes) {
            assert forall|j: int| 0 <= j < a.letters.len() implies count_letter(
                #[trigger] a.letters[j],
            ) by {
                assert(count_letter(args[i].letters[j]));
            }
            law_group_of_letters(o, a.letters);
            let p = options::letters_step(o, a.letters, 0)->Next_0;
            lemma_letters_and_files_from(args, i + 1, p);
            assert(files =~= tail_files);
        } else {
            let p = OptionsView { files: o.files.push(a.bytes), ..o };
            lemma_letters_and_files_from(args, i + 1, p);
            assert(o.files + files =~= p.files + tail_files);
        }
    } else {
        assert(rest =~= Seq::<ArgView>::empty());
        reveal(Seq::filter);
        assert(rest.filter(is_file).map_values(bytes_of) =~= Seq::<Seq<u8>>::empty());
        assert(o.files + rest.filter(is_file).map_values(bytes_of) =~= o.files);
    }
}

/// On a command line of groups of letters and files alone each count is asked
/// for whose letter stands in a group, and the files are the other arguments
/// in their order.
pub proof fn law_letters_and_files(args: Seq<ArgView>, mode: crate::ws::WsMode)
    requires
        forall|k: int|
            0 <= k < args.len() ==> names_a_file(false, (#[trigger] args[k]).bytes) || is_group(
                args[k].bytes,
            ),
        forall|k: int, j: int|
            0 <= k < args.len() && is_group(args[k].bytes) && 0 <= j < args[k].letters.len()
                ==> count_letter(#[trigger] args[k].letters[j]),
    ensures
        options::parsed_from(args, 0, options::no_options(mode)) matches ParsedView::Run(p) && {
            let none = !some_group_has(args, 'l') && !some_group_has(args, 'w') && !some_group_has(
                args,
                'm',
            ) && !some_group_has(args, 'c') && !some_group_has(args, 'L');
            &&& p.print_lines == (some_group_has(args, 'l') || none)
            &&& p.print_words == (some_group_has(args, 'w') || none)
            &&& p.print_chars == some_group_has(args, 'm')
            &&& p.print_bytes == (some_group_has(args, 'c') || none)
            &&& p.print_linelength == some_group_has(args, 'L')
            &&& p.files == args.filter(|a: ArgView| !is_group(a.bytes)).map_values(
                |a: ArgView| a.bytes,
            )
            &&& p.total_mode == TotalMode::Auto
            &&& p.files_from is None
        },
{
    let o = options::no_options(mode);
    lemma_letters_and_files_from(args, 0, o);
    assert(args.skip(0) =~= args);
    let files = args.filter(|a: ArgView| !is_group(a.bytes)).map_values(|a: ArgView| a.bytes);
    assert(o.files + files =~= files);
}

/// An argument is parsed by its bytes, by its text, and by the text behind its
/// first byte.
pub proof fn law_arguments_have_their_texts(args: Seq<Seq<u8>>, k: int)
    requires
        0 <= k < args.len(),
    ensures
        options::lossy_args(args).len() == args.len(),
        options::lossy_args(args)[k].bytes == args[k],
        options::lossy_args(args)[k].text == strings::lossy_text(args[k]),
        args[k].len() > 0 ==> options::lossy_args(args)[k].letters == strings::lossy_text(
            args[k].skip(1),
        ),
{
}

// ---------------------------------------------------------------------------
// Numbers.

/// A decimal number is written in digits, without a zero in front unless it is
/// the only one, and reads as the number.
pub proof fn law_decimal(n: nat)
    ensures
        ({
            let t = strings::decimal_text(n);
            &&& t.len() >= 1
            &&& forall|k: int| 0 <= k < t.len() ==> '0' <= #[trigger] t[k] && t[k] <= '9'
            &&& t[0] == '0' ==> t.len() == 1
            &&& t.fold_left(0int, |v: int, c: char| 10 * v + (c as int - 0x30)) == n
        }),
    decreases n,
{
    let t = strings::decimal_text(n);
    let f = |v: int, c: char| 10 * v + (c as int - 0x30);
    if n < 10 {
        let d = strings::digit_char(n as int);
        assert(t.drop_last() =~= Seq::<char>::empty());
        assert(t.last() == d);
        assert(d as int == 0x30 + n);
        assert(t.drop_last().fold_left(0int, f) == 0);
    } else {
        law_decimal(n / 10);
        let before = strings::decimal_text(n / 10);
        let d = strings::digit_char((n % 10) as int);
        assert(t.drop_last() =~= before);
        assert(t.last() == d);
        assert(d as int == 0x30 + n % 10);
        assert(t[0] == before[0]);
        if before[0] == '0' {
            assert(before.len() == 1);
            assert(before.drop_last() =~= Seq::<char>::empty());
            assert(before.last() == '0');
            assert(before.drop_last().fold_left(0int, f) == 0);
            assert(before.fold_left(0int, f) == f(0, '0'));
        }
    }
}

/// A negative number has a sign in front of its magnitude.
pub proof fn law_signed(n: int)
    ensures
        n >= 0 ==> strings::signed_text(n) == strings::decimal_text(n as nat),
        n < 0 ==> strings::signed_text(n) == seq!['-'] + strings::decimal_text((-n) as nat),
{
}

/// What is right-aligned ends with the text, has spaces in front, and is as
/// wide as asked for, unless the text is wider.
pub proof fn law_right_aligned(t: Seq<char>, width: int)
    ensures
        ({
            let r = strings::right_aligned(t, width);
            let pad = r.len() - t.len();
            &&& r.len() >= t.len()
            &&& r.len() >= width
            &&& r.len() == t.len() || r.len() == width
            &&& r.skip(pad) == t
            &&& forall|k: int| 0 <= k < pad ==> #[trigger] r[k] == ' '
        }),
{
    let r = strings::right_aligned(t, width);
    assert(r.skip(r.len() - t.len()) =~= t);
}

// ---------------------------------------------------------------------------
// Widths.

/// Each count that is asked for is one column.
pub proof fn law_columns_are_counts(o: OptionsView, column: Column)
    ensures
        ({
            let asked = match column {
                Column::Lines => o.print_lines,
                Column::Words => o.print_words,
                Column::Chars => o.print_chars,
                Column::Bytes => o.print_bytes,
                Column::LineLength => o.print_linelength,
            };
            report::column_count(options::printing(o, column)) == report::column_count(o) + if asked {
                0int
            } else {
                1
            }
        }),
        report::column_count(o) == 0 <==> !(o.print_lines || o.print_words || o.print_chars
            || o.print_bytes || o.print_linelength),
{
}

/// Sizes are summed over the regular files; nothing else adds to them.
pub proof fn law_regular_sizes(stats: Seq<Option<InputStat>>, st: Option<InputStat>)
    ensures
        report::regular_size(Seq::empty()) == 0,
        report::regular_size(stats.push(st)) == report::regular_size(stats) + if st is Some
            && st->0.kind == FileKind::Regular {
            st->0.len as nat
        } else {
            0
        },
{
    assert(stats.push(st).drop_last() =~= stats);
}

proof fn lemma_digits_reach(n: nat)
    ensures
        ({
            let w = strings::decimal_text(n).len();
            &&& w >= 1
            &&& n < vstd::arithmetic::power::pow(10, w)
            &&& w > 1 ==> n >= vstd::arithmetic::power::pow(10, (w - 1) as nat)
        }),
    decreases n,
{
    reveal_with_fuel(vstd::arithmetic::power::pow, 3);
    if n >= 10 {
        lemma_digits_reach(n / 10);
    }
}

/// A column is as wide as the sum of the sizes needs, and 7 wide at least
/// where an input that was found is no regular file: the sum fits it, and it
/// would fit none narrower.
pub proof fn law_width_of_sizes(stats: Seq<Option<InputStat>>)
    ensures
        ({
            let w = report::size_width(stats);
            let sum = report::regular_size(stats);
            let total = if sum > 0xffff_ffff_ffff_ffff { 0xffff_ffff_ffff_ffffnat } else { sum };
            let odd = exists|i: int|
                0 <= i < stats.len() && (#[trigger] stats[i] matches Some(st) && st.kind
                    != FileKind::Regular);
            &&& w >= 1
            &&& total < vstd::arithmetic::power::pow(10, w as nat)
            &&& odd ==> w >= 7
            &&& w == 1 || (odd && w == 7) || total >= vstd::arithmetic::power::pow(
                10,
                (w - 1) as nat,
            )
        }),
{
    let sum = report::regular_size(stats);
    let total = if sum > 0xffff_ffff_ffff_ffff { 0xffff_ffff_ffff_ffffnat } else { sum };
    lemma_digits_reach(total);
    let d = strings::decimal_text(total).len();
    if report::size_width(stats) == 7 && d < 7 {
        vstd::arithmetic::power::lemma_pow_increases(10, d, 7);
    }
}

/// Columns are aligned unless one number is printed at most, or the totals
/// alone: without inputs, or with one input and one column.
pub proof fn law_when_columns_are_aligned(o: OptionsView, nfiles: int, nflags: int)
    requires
        nfiles >= 0,
    ensures
        report::aligned(o, nfiles, nflags) <==> o.total_mode != TotalMode::Only && (nfiles > 1 || (
        nflags != 1 && !(nfiles == 0 && o.files_from is Some))),
{
}

// ---------------------------------------------------------------------------
// Rows.

proof fn lemma_spaced_first(f: Seq<char>, rest: Seq<Seq<char>>)
    ensures
        report::spaced(seq![f] + rest) == if rest.len() == 0 {
            f
        } else {
            f.push(' ') + report::spaced(rest)
        },
    decreases rest.len(),
{
    let all = seq![f] + rest;
    if rest.len() == 0 {
        assert(all =~= seq![f]);
    } else {
        let before = rest.drop_last();
        lemma_spaced_first(f, before);
        assert(all.drop_last() =~= seq![f] + before);
        assert(all.last() == rest.last());
        if before.len() == 0 {
            assert(rest =~= seq![rest.last()]);
            assert(report::spaced(rest) == rest.last());
            assert(report::spaced(all) =~= f.push(' ') + report::spaced(rest));
        } else {
            assert(report::spaced(all) =~= f.push(' ') + report::spaced(rest));
        }
    }
}

/// What stands between the first column of a row and the rest of it.
pub open spec fn gap(o: OptionsView) -> Seq<char> {
    if o.print_lines || o.print_words || o.print_chars || o.print_bytes || o.print_linelength {
        seq![' ']
    } else {
        Seq::empty()
    }
}

/// The options without the first column that they ask for.
pub open spec fn without_first(o: OptionsView) -> OptionsView {
    if o.print_lines {
        OptionsView { print_lines: false, ..o }
    } else if o.print_words {
        OptionsView { print_words: false, ..o }
    } else if o.print_chars {
        OptionsView { print_chars: false, ..o }
    } else if o.print_bytes {
        OptionsView { print_bytes: false, ..o }
    } else {
        OptionsView { print_linelength: false, ..o }
    }
}

/// What the first column that is asked for shows, in its width.
pub open spec fn first_field(o: OptionsView, c: Counts, widths: Seq<usize>) -> Seq<char> {
    if o.print_lines {
        strings::right_aligned(strings::decimal_text(c.lines as nat), widths[0] as int)
    } else if o.print_words {
        strings::right_aligned(strings::decimal_text(c.words as nat), widths[1] as int)
    } else if o.print_chars {
        strings::right_aligned(strings::decimal_text(c.chars as nat), widths[2] as int)
    } else if o.print_bytes {
        strings::right_aligned(strings::decimal_text(c.bytes as nat), widths[3] as int)
    } else {
        strings::right_aligned(strings::signed_text(c.max_line_length as int), widths[4] as int)
    }
}

proof fn lemma_with_field_first(
    first: Seq<char>,
    rest: Seq<Seq<char>>,
    printed: bool,
    value: Seq<char>,
    width: usize,
)
    ensures
        report::with_field(seq![first] + rest, printed, value, width) == seq![first]
            + report::with_field(rest, printed, value, width),
{
    assert(report::with_field(seq![first] + rest, printed, value, width) =~= seq![first]
        + report::with_field(rest, printed, value, width));
}

/// `f0` and the later columns that are asked for.
spec fn later(o: OptionsView, c: Counts, widths: Seq<usize>, f0: Seq<Seq<char>>) -> Seq<Seq<char>> {
    let f1 = report::with_field(
        f0,
        o.print_words,
        strings::decimal_text(c.words as nat),
        widths[1],
    );
    let f2 = report::with_field(
        f1,
        o.print_chars,
        strings::decimal_text(c.chars as nat),
        widths[2],
    );
    let f3 = report::with_field(
        f2,
        o.print_bytes,
        strings::decimal_text(c.bytes as nat),
        widths[3],
    );
    report::with_field(
        f3,
        o.print_linelength,
        strings::signed_text(c.max_line_length as int),
        widths[4],
    )
}

proof fn lemma_later_first(
    o: OptionsView,
    c: Counts,
    widths: Seq<usize>,
    first: Seq<char>,
    f0: Seq<Seq<char>>,
)
    ensures
        later(o, c, widths, seq![first] + f0) == seq![first] + later(o, c, widths, f0),
{
    let words = strings::decimal_text(c.words as nat);
    let chars = strings::decimal_text(c.chars as nat);
    let bytes = strings::decimal_text(c.bytes as nat);
    let length = strings::signed_text(c.max_line_length as int);
    let f1 = report::with_field(f0, o.print_words, words, widths[1]);
    let f2 = report::with_field(f1, o.print_chars, chars, widths[2]);
    let f3 = report::with_field(f2, o.print_bytes, bytes, widths[3]);
    lemma_with_field_first(first, f0, o.print_words, words, widths[1]);
    lemma_with_field_first(first, f1, o.print_chars, chars, widths[2]);
    lemma_with_field_first(first, f2, o.print_bytes, bytes, widths[3]);
    lemma_with_field_first(first, f3, o.print_linelength, length, widths[4]);
}

proof fn lemma_fields_first(o: OptionsView, c: Counts, widths: Seq<usize>)
    requires
        gap(o).len() > 0,
    ensures
        report::fields(o, c, widths) == seq![first_field(o, c, widths)] + report::fields(
            without_first(o),
            c,
            widths,
        ),
{
    let none = Seq::<Seq<char>>::empty();
    let first = first_field(o, c, widths);
    let rest = without_first(o);
    assert(none.push(first) =~= seq![first] + none);
    lemma_later_first(rest, c, widths, first, none);
    assert(report::fields(rest, c, widths) == later(rest, c, widths, none));
    assert(report::fields(o, c, widths) == later(rest, c, widths, none.push(first)));
}

proof fn lemma_some_fields(o: OptionsView, c: Counts, widths: Seq<usize>)
    ensures
        report::fields(o, c, widths).len() == 0 <==> gap(o).len() == 0,
{
    if gap(o).len() > 0 {
        lemma_fields_first(o, c, widths);
    }
}

/// What stands behind the columns of a row.
pub open spec fn row_end(name: Option<Seq<char>>) -> Seq<char> {
    match name {
        Some(n) => seq![' '] + report::shown_name(n) + seq!['\n'],
        None => seq!['\n'],
    }
}

proof fn lemma_row_is_fields(
    o: OptionsView,
    c: Counts,
    widths: Seq<usize>,
    name: Option<Seq<char>>,
)
    ensures
        report::row_text(o, c, widths, name) == report::spaced(report::fields(o, c, widths))
            + row_end(name),
{
    assert(report::row_text(o, c, widths, name) =~= report::spaced(report::fields(o, c, widths))
        + row_end(name));
}

/// A row starts with its first column, right-aligned in its width, in the
/// order of lines, words, characters, bytes and line length. If there is
/// another column, a space and the row of the other columns follow. Behind the
/// last stand a space and the name, where there is one, and a newline.
pub proof fn law_row(o: OptionsView, c: Counts, widths: Seq<usize>, name: Option<Seq<char>>)
    ensures
        gap(o).len() == 0 ==> report::row_text(o, c, widths, name) == row_end(name),
        gap(o).len() > 0 ==> report::row_text(o, c, widths, name) == first_field(o, c, widths)
            + gap(without_first(o)) + report::row_text(without_first(o), c, widths, name),
{
    let fs = report::fields(o, c, widths);
    let rest = without_first(o);
    let left = report::fields(rest, c, widths);
    lemma_row_is_fields(o, c, widths, name);
    lemma_row_is_fields(rest, c, widths, name);
    lemma_some_fields(o, c, widths);
    lemma_some_fields(rest, c, widths);
    if gap(o).len() > 0 {
        let first = first_field(o, c, widths);
        lemma_fields_first(o, c, widths);
        lemma_spaced_first(first, left);
        assert(report::spaced(fs) =~= first + gap(rest) + report::spaced(left));
        assert(report::row_text(o, c, widths, name) =~= first + gap(rest) + report::row_text(
            rest,
            c,
            widths,
            name,
        ));
    } else {
        assert(report::spaced(fs) =~= Seq::<char>::empty());
        assert(report::row_text(o, c, widths, name) =~= row_end(name));
    }
}

/// A control character of Unicode.
pub open spec fn control(c: char) -> bool {
    c as int <= 0x1f || 0x7f <= c as int <= 0x9f
}

proof fn lemma_quoted_flat(name: Seq<char>)
    ensures
        report::quoted_chars(name) == name.map_values(|c: char| report::quoted_char(c)).flatten(),
    decreases name.len(),
{
    let q = |c: char| report::quoted_char(c);
    let parts = name.map_values(q);
    if name.len() == 0 {
        assert(parts =~= Seq::<Seq<char>>::empty());
        assert(parts.flatten() =~= Seq::<char>::empty());
    } else {
        lemma_quoted_flat(name.drop_last());
        let before = name.drop_last().map_values(q);
        assert(parts =~= before.push(q(name.last())));
        before.lemma_flatten_push(q(name.last()));
    }
}

/// A name without a control character is shown as it is. Another is shown
/// between quotes, each character by itself: newline, tab and carriage return
/// as `'$'\n''` and the like, a quote as `'\''`, and any other as it is.
pub proof fn law_shown_name(name: Seq<char>)
    ensures
        (forall|k: int| 0 <= k < name.len() ==> !control(#[trigger] name[k]))
            ==> report::shown_name(name) == name,
        (exists|k: int| 0 <= k < name.len() && control(#[trigger] name[k]))
            ==> report::shown_name(name) == seq!['\''] + name.map_values(
            |c: char|
                if c == '\n' {
                    seq!['\'', '$', '\'', '\\', 'n', '\'', '\'']
                } else if c == '\t' {
                    seq!['\'', '$', '\'', '\\', 't', '\'', '\'']
                } else if c == '\r' {
                    seq!['\'', '$', '\'', '\\', 'r', '\'', '\'']
                } else if c == '\'' {
                    seq!['\'', '\\', '\'', '\'']
                } else {
                    seq![c]
                },
        ).flatten() + seq!['\''],
{
    reveal_strlit("'$'\\n''");
    reveal_strlit("'$'\\t''");
    reveal_strlit("'$'\\r''");
    reveal_strlit("'\\''");
    assert("'$'\\n''"@ =~= seq!['\'', '$', '\'', '\\', 'n', '\'', '\'']);
    assert("'$'\\t''"@ =~= seq!['\'', '$', '\'', '\\', 't', '\'', '\'']);
    assert("'$'\\r''"@ =~= seq!['\'', '$', '\'', '\\', 'r', '\'', '\'']);
    assert("'\\''"@ =~= seq!['\'', '\\', '\'', '\'']);
    lemma_quoted_flat(name);
    let shown = |c: char|
        if c == '\n' {
            seq!['\'', '$', '\'', '\\', 'n', '\'', '\'']
        } else if c == '\t' {
            seq!['\'', '$', '\'', '\\', 't', '\'', '\'']
        } else if c == '\r' {
            seq!['\'', '$', '\'', '\\', 'r', '\'', '\'']
        } else if c == '\'' {
            seq!['\'', '\\', '\'', '\'']
        } else {
            seq![c]
        };
    assert(name.map_values(|c: char| report::quoted_char(c)) =~= name.map_values(shown));
    if exists|k: int| 0 <= k < name.len() && control(#[trigger] name[k]) {
        let k = choose|k: int| 0 <= k < name.len() && control(#[trigger] name[k]);
        assert(report::is_control(name[k]));
    } else {
        assert forall|k: int| 0 <= k < name.len() implies !report::is_control(
            #[trigger] name[k],
        ) by {
            assert(!control(name[k]));
        }
    }
}

// ---------------------------------------------------------------------------
// Inputs.

/// The names come from a list where one is named, from standard input if by a
/// dash; names on the command line beside it are refused.
pub proof fn law_where_names_come_from(o: OptionsView)
    ensures
        session::start_of(o) == Start::Operands <==> o.files_from is None,
        session::start_of(o) == Start::ExtraOperand <==> o.files_from is Some && o.files.len() > 0,
        session::start_of(o) == Start::ListStdin <==> o.files_from == Some(seq!['-'])
            && o.files.len() == 0,
{
    reveal_strlit("-");
    assert("-"@ =~= seq!['-']);
}

/// Where the answer is known without reading, its row is the row of the text,
/// whatever the text is: nothing but its length is shown.
pub proof fn law_known_row_is_the_row(
    o: OptionsView,
    st: InputStat,
    s: Seq<u8>,
    width: spec_fn(u32) -> int,
    w: Counts,
    known: Counts,
    widths: Seq<usize>,
    name: Option<Seq<char>>,
)
    requires
        session::route_of(o, st) == Route::Known(known),
        st.kind == FileKind::Regular,
        s.len() == st.len,
        parallel::line_counts(s, true, o.ws_mode, width, w),
    ensures
        report::row_text(o, known, widths, name) == report::row_text(o, w, widths, name),
        !o.print_lines && !o.print_words && !o.print_chars && !o.print_linelength,
        known.bytes == s.len(),
{
    crate::laws::law_row_shows_what_is_asked(o, known, w, widths, name);
}

/// A directory alone is unreadable, with counts of 0. A regular file whose
/// bytes alone are asked for is known; another of more than 64 KiB is mapped.
/// All else is streamed.
pub proof fn law_routes(o: OptionsView, st: InputStat)
    ensures
        ({
            let r = session::route_of(o, st);
            let bytes_alone = o.print_bytes && !o.print_lines && !o.print_words && !o.print_chars
                && !o.print_linelength;
            let regular = st.kind == FileKind::Regular;
            &&& r is Known <==> regular && bytes_alone
            &&& r is Unreadable <==> st.kind == FileKind::Directory
            &&& r is Mapped <==> regular && !bytes_alone && st.len > 65536
            &&& r is Streamed <==> st.kind == FileKind::Other || (regular && !bytes_alone && st.len
                <= 65536)
            &&& r matches Route::Unreadable(c) ==> c.lines == 0 && c.words == 0 && c.chars == 0
                && c.bytes == 0 && c.max_line_length == 0
        }),
{
}

/// What a run does with the file at `at`: a name of no length is spoken of, as
/// is a dash in a list from standard input; any other dash is standard input;
/// all else is a file, by its own name. Without a file named, and without a
/// list, standard input is the one input.
pub proof fn law_what_a_run_does(o: OptionsView, at: int)
    requires
        at >= 0,
    ensures
        at < o.files.len() ==> ({
            let name = o.files[at];
            let dash = name.len() == 1 && name[0] == 0x2d;
            let refused = name.len() == 0 || (dash && o.files_from == Some(seq!['-']));
            let action = session::action_at(o, at);
            &&& action is Say <==> refused
            &&& action is CountStdin <==> dash && !refused
            &&& !dash && !refused ==> action == ActionView::CountFile(name)
        }),
        at >= o.files.len() ==> session::action_at(o, at) == if at == 0 && o.files_from is None {
            ActionView::CountStdin
        } else {
            ActionView::Done
        },
        at >= 1 && o.files.len() > 0 ==> session::name_before(o, at) == Some(o.files[at - 1]),
        o.files.len() == 0 ==> session::name_before(o, at) is None,
{
    reveal_strlit("-");
    assert("-"@ =~= seq!['-']);
    if at < o.files.len() {
        let name = o.files[at];
        if name.len() == 1 && name[0] == 0x2d {
            assert(name =~= seq![0x2du8]);
        }
        assert(seq![0x2du8].len() == 1 && seq![0x2du8][0] == 0x2d);
    }
}

/// By default the row of totals is printed if the run visits two inputs at
/// least, wherever their names come from and whatever comes of them. Else it
/// is printed always or never, as asked for. It is called "total", unless it
/// is the only row.
pub proof fn law_when_totals_are_printed(o: OptionsView)
    ensures
        o.total_mode == TotalMode::Auto ==> (session::total_printed(o) <==> session::action_at(o, 0)
            !is Done && session::action_at(o, 1) !is Done),
        o.total_mode == TotalMode::Auto ==> (session::total_printed(o) <==> o.files.len() >= 2),
        o.total_mode == TotalMode::Always || o.total_mode == TotalMode::Only
            ==> session::total_printed(o),
        o.total_mode == TotalMode::Never ==> !session::total_printed(o),
        o.total_mode == TotalMode::Only ==> session::total_name(o) is None,
        o.total_mode != TotalMode::Only ==> session::total_name(o) == Some("total"@),
{
}

proof fn lemma_sum_folds(parts: Seq<Counts>, field: spec_fn(Counts) -> int)
    ensures
        session::sum_of(parts, field) == parts.fold_left(
            0int,
            |sum: int, c: Counts| sum + field(c),
        ),
    decreases parts.len(),
{
    if parts.len() > 0 {
        lemma_sum_folds(parts.drop_last(), field);
    }
}

proof fn lemma_same_fold(
    parts: Seq<Counts>,
    f: spec_fn(int, Counts) -> int,
    g: spec_fn(int, Counts) -> int,
)
    requires
        forall|v: int, c: Counts| #[trigger] f(v, c) == g(v, c),
    ensures
        parts.fold_left(0int, f) == parts.fold_left(0int, g),
    decreases parts.len(),
{
    if parts.len() > 0 {
        lemma_same_fold(parts.drop_last(), f, g);
        let v = parts.drop_last().fold_left(0int, f);
        assert(f(v, parts.last()) == g(v, parts.last()));
    }
}

/// The totals are the sums over what was counted, and the longest line of all
/// of it.
pub proof fn law_totals_are_sums(parts: Seq<Counts>, total: Counts)
    requires
        session::totals(parts, total),
    ensures
        total.lines == parts.fold_left(0int, |sum: int, c: Counts| sum + c.lines),
        total.words == parts.fold_left(0int, |sum: int, c: Counts| sum + c.words),
        total.chars == parts.fold_left(0int, |sum: int, c: Counts| sum + c.chars),
        total.bytes == parts.fold_left(0int, |sum: int, c: Counts| sum + c.bytes),
        total.max_line_length >= 0,
        forall|k: int|
            0 <= k < parts.len() ==> (#[trigger] parts[k]).max_line_length
                <= total.max_line_length,
        total.max_line_length == 0 || exists|k: int|
            0 <= k < parts.len() && (#[trigger] parts[k]).max_line_length == total.max_line_length,
{
    let l = |c: Counts| c.lines as int;
    let w = |c: Counts| c.words as int;
    let m = |c: Counts| c.chars as int;
    let b = |c: Counts| c.bytes as int;
    lemma_sum_folds(parts, l);
    lemma_sum_folds(parts, w);
    lemma_sum_folds(parts, m);
    lemma_sum_folds(parts, b);
    lemma_same_fold(
        parts,
        |sum: int, c: Counts| sum + l(c),
        |sum: int, c: Counts| sum + c.lines,
    );
    lemma_same_fold(
        parts,
        |sum: int, c: Counts| sum + w(c),
        |sum: int, c: Counts| sum + c.words,
    );
    lemma_same_fold(
        parts,
        |sum: int, c: Counts| sum + m(c),
        |sum: int, c: Counts| sum + c.chars,
    );
    lemma_same_fold(
        parts,
        |sum: int, c: Counts| sum + b(c),
        |sum: int, c: Counts| sum + c.bytes,
    );
    lemma_longest_of(parts);
}

proof fn lemma_longest_of(parts: Seq<Counts>)
    ensures
        session::longest_of(parts) >= 0,
        forall|k: int|
            0 <= k < parts.len() ==> (#[trigger] parts[k]).max_line_length <= session::longest_of(
                parts,
            ),
        session::longest_of(parts) == 0 || exists|k: int|
            0 <= k < parts.len() && (#[trigger] parts[k]).max_line_length == session::longest_of(
                parts,
            ),
    decreases parts.len(),
{
    if parts.len() > 0 {
        let before = parts.drop_last();
        lemma_longest_of(before);
        let last = parts[parts.len() - 1];
        assert forall|k: int| 0 <= k < parts.len() implies (#[trigger] parts[k]).max_line_length
            <= session::longest_of(parts) by {
            if k < before.len() {
                assert(before[k] == parts[k]);
            }
        }
        let longest = session::longest_of(parts);
        if longest != 0 && longest != last.max_line_length {
            let k = choose|k: int|
                0 <= k < before.len() && (#[trigger] before[k]).max_line_length
                    == session::longest_of(before);
            assert(parts[k] == before[k]);
        }
    }
}

/// What could be counted has its row, unless the totals are the only row, and
/// enters the totals. What could not be opened has none and does not. An error
/// of either is spoken of behind the name, which is a dash where there is
/// none.
pub proof fn law_what_is_printed_of_an_input(
    o: OptionsView,
    widths: Seq<usize>,
    shown: Option<Seq<char>>,
    c: Counts,
    e: String,
    parts: Seq<Counts>,
    total: Counts,
)
    ensures
        ({
            let fine = Outcome::Counted(c, None);
            let broken = Outcome::Counted(c, Some(e));
            let closed = Outcome::NotOpened(e);
            let row = Some(report::row_text(o, c, widths, shown));
            let said = Some(
                seq!['w', 'c', ':', ' '] + (match shown {
                    Some(n) => n,
                    None => seq!['-'],
                }) + seq![':', ' '] + e@,
            );
            &&& o.total_mode != TotalMode::Only ==> session::row_of(o, widths, shown, fine) == row
                && session::row_of(o, widths, shown, broken) == row
            &&& o.total_mode == TotalMode::Only ==> session::row_of(o, widths, shown, fine) is None
                && session::row_of(o, widths, shown, broken) is None
            &&& session::row_of(o, widths, shown, closed) is None
            &&& session::diagnostic_of(shown, fine) is None
            &&& session::diagnostic_of(shown, broken) == said
            &&& session::diagnostic_of(shown, closed) == said
            &&& session::error_of(fine) is None
            &&& session::error_of(broken) == Some(e@)
            &&& session::error_of(closed) == Some(e@)
            &&& session::counted_with(parts, fine) == parts.push(c)
            &&& session::counted_with(parts, broken) == parts.push(c)
            &&& session::counted_with(parts, closed) == parts
            &&& session::total_with(total, fine) == total.merged(c)
            &&& session::total_with(total, broken) == total.merged(c)
            &&& session::total_with(total, closed) == total
        }),
{
    reveal_strlit("wc: ");
    reveal_strlit(": ");
    reveal_strlit("-");
    assert("wc: "@ =~= seq!['w', 'c', ':', ' ']);
    assert(": "@ =~= seq![':', ' ']);
    assert("-"@ =~= seq!['-']);
}

/// A mapped file is spoken of when debugging is asked for and lines are not
/// measured.
pub proof fn law_when_debugging_speaks(o: OptionsView, len: int)
    ensures
        session::debugged(o, len) <==> o.debug && !o.print_linelength && len > 0,
{
}

/// What is left of a command line is parsed as a command line of its own.
proof fn lemma_parsed_rest(args: Seq<ArgView>, i: int, other: Seq<ArgView>, j: int, o: OptionsView)
    requires
        0 <= i <= args.len(),
        0 <= j <= other.len(),
        args.skip(i) == other.skip(j),
    ensures
        options::parsed_from(args, i, o) == options::parsed_from(other, j, o),
    decreases args.len() - i,
{
    let rest = args.skip(i);
    assert(args.len() - i == rest.len() && other.len() - j == rest.len());
    if i < args.len() {
        assert(args[i] == rest[0] && other[j] == rest[0]);
        if i + 1 < args.len() {
            assert(args[i + 1] == rest[1] && other[j + 1] == rest[1]);
        }
        let next = if i + 1 < args.len() { Some(args[i + 1].text) } else { None };
        options::lemma_step_size(o, args[i], next);
        match options::arg_step(o, args[i], next) {
            StepView::Next(p, n) => {
                assert(args.skip(i + n) =~= rest.skip(n));
                assert(other.skip(j + n) =~= rest.skip(n));
                lemma_parsed_rest(args, i + n, other, j + n, p);
            },
            StepView::Stop(_) => {},
        }
    }
}

/// A command line is parsed argument by argument: the first one may change the
/// options, and the others are parsed with them, without the second where the
/// first has used it up; or it ends the command line. At the end of it the
/// defaults are filled in.
pub proof fn law_one_argument_after_the_other(a: ArgView, rest: Seq<ArgView>, o: OptionsView)
    ensures
        options::parsed_from(Seq::empty(), 0, o) == ParsedView::Run(options::with_defaults(o)),
        ({
            let next = if rest.len() > 0 { Some(rest[0].text) } else { None };
            match options::arg_step(o, a, next) {
                StepView::Stop(p) => options::parsed_from(seq![a] + rest, 0, o) == p,
                StepView::Next(p, n) => {
                    &&& n == 1 || (n == 2 && rest.len() > 0)
                    &&& options::parsed_from(seq![a] + rest, 0, o) == options::parsed_from(
                        rest.skip(n - 1),
                        0,
                        p,
                    )
                },
            }
        }),
{
    let args = seq![a] + rest;
    let next = if rest.len() > 0 { Some(rest[0].text) } else { None };
    assert(args[0] == a);
    if rest.len() > 0 {
        assert(args[1] == rest[0]);
    }
    options::lemma_step_size(o, a, next);
    match options::arg_step(o, a, next) {
        StepView::Next(p, n) => {
            assert(args.skip(n) =~= rest.skip(n - 1).skip(0));
            lemma_parsed_rest(args, n, rest.skip(n - 1), 0, p);
        },
        StepView::Stop(_) => {},
    }
}

/// An option and its value are the same in one argument, with a sign between
/// them, and in two.
pub proof fn law_value_in_one_argument_or_two(
    one: ArgView,
    name: ArgView,
    value: ArgView,
    rest: Seq<ArgView>,
    o: OptionsView,
)
    requires
        !o.end_of_opts,
        name.text == "--total"@ || name.text == "--files0-from"@,
        one.text == name.text.push('=') + value.text,
        one.bytes.len() > 2 && one.bytes[0] == 0x2d && one.bytes[1] == 0x2d,
        name.bytes.len() > 2 && name.bytes[0] == 0x2d && name.bytes[1] == 0x2d,
    ensures
        options::parsed_from(seq![one] + rest, 0, o) == options::parsed_from(
            seq![name, value] + rest,
            0,
            o,
        ),
{
    let two = seq![value] + rest;
    assert(seq![name, value] + rest =~= seq![name] + two);
    assert(two[0] == value);
    assert(two.skip(1) =~= rest);
    assert(rest.skip(0) =~= rest);
    let next = if rest.len() > 0 { Some(rest[0].text) } else { None };
    law_files_and_options(o, one, next);
    law_files_and_options(o, name, Some(value.text));
    law_one_argument_after_the_other(one, rest, o);
    law_one_argument_after_the_other(name, two, o);
    reveal_strlit("--total");
    reveal_strlit("--files0-from");
    assert(!name.text.contains('='));
    lemma_name_and_value_of(name.text, value.text);
    law_name_and_value(name.text);
    law_options_with_a_value(o, value.text, next);
    law_options_with_a_value(o, value.text, Some(value.text));
}

proof fn lemma_name_and_value_of(name: Seq<char>, value: Seq<char>)
    requires
        !name.contains('='),
    ensures
        options::option_name(name.push('=') + value) == name,
        options::option_value(name.push('=') + value) == Some(value),
{
    let t = name.push('=') + value;
    lemma_first_equals(t, 0);
    let k = options::first_equals(t, 0);
    assert(t[name.len() as int] == '=');
    if k < name.len() {
        assert(name.contains(name[k]));
    }
    assert(k == name.len());
    assert(t.take(k) =~= name);
    assert(t.skip(k + 1) =~= value);
}

/// `t` and `u` are the same texts but for one place, where `t` holds `a` and
/// `u` holds `b`.
pub open spec fn differ_in(t: Seq<char>, a: Seq<char>, u: Seq<char>, b: Seq<char>) -> bool {
    exists|before: Seq<char>, after: Seq<char>|
        t == before + a + after && u == #[trigger] (before + b + after)
}

/// What is said of a refused option, letter or value names it, and is the same
/// of all of them but for that.
pub proof fn law_refusals_name_what_is_refused(a: Seq<char>, b: Seq<char>, c: char, d: char)
    ensures
        differ_in(
            options::refusal_text(RefusalView::UnknownOption(a)),
            a,
            options::refusal_text(RefusalView::UnknownOption(b)),
            b,
        ),
        differ_in(
            options::refusal_text(RefusalView::UnknownTotal(a)),
            a,
            options::refusal_text(RefusalView::UnknownTotal(b)),
            b,
        ),
        differ_in(
            options::refusal_text(RefusalView::UnknownLetter(c)),
            seq![c],
            options::refusal_text(RefusalView::UnknownLetter(d)),
            seq![d],
        ),
{
    let hint = options::usage_hint();
    let p1 = "wc: unrecognized option '"@;
    let q1 = "'"@ + hint;
    assert(options::refusal_text(RefusalView::UnknownOption(a)) =~= p1 + a + q1);
    assert(options::refusal_text(RefusalView::UnknownOption(b)) =~= (p1 + b) + q1);
    let p2 = "wc: invalid argument '"@;
    let q2 =
        "' for '--total'\nValid arguments are:\n  - 'auto'\n  - 'always'\n  - 'only'\n  - 'never'"@;
    assert(options::refusal_text(RefusalView::UnknownTotal(a)) =~= p2 + a + q2);
    assert(options::refusal_text(RefusalView::UnknownTotal(b)) =~= (p2 + b) + q2);
    let p3 = "wc: invalid option -- '"@;
    assert(options::refusal_text(RefusalView::UnknownLetter(c)) =~= p3 + seq![c] + q1);
    assert(options::refusal_text(RefusalView::UnknownLetter(d)) =~= (p3 + seq![d]) + q1);
}

/// What is said of an empty name in a list names the list and the number of
/// the name, counted from 1, and is the same of all of them but for that. On
/// the command line the number is not told.
pub proof fn law_empty_names_are_numbered(o: OptionsView, list: Seq<char>, i: int, k: int)
    requires
        i >= 0,
        k >= 0,
        o.files_from == Some(list),
    ensures
        ({
            let none = Seq::<u8>::empty();
            let t = session::operand_of(o, i, none);
            let u = session::operand_of(o, k, none);
            &&& t is Refused && u is Refused
            &&& differ_in(
                t->Refused_0,
                list + seq![':'] + strings::decimal_text((i + 1) as nat),
                u->Refused_0,
                list + seq![':'] + strings::decimal_text((k + 1) as nat),
            )
            &&& session::operand_of(OptionsView { files_from: None, ..o }, i, none)
                == session::operand_of(OptionsView { files_from: None, ..o }, k, none)
        }),
{
    reveal_strlit(":");
    assert(":"@ =~= seq![':']);
    let none = Seq::<u8>::empty();
    let before = "wc: "@;
    let after = ": invalid zero-length file name"@;
    let t = session::operand_of(o, i, none)->Refused_0;
    let u = session::operand_of(o, k, none)->Refused_0;
    assert(t =~= before + (list + seq![':'] + strings::decimal_text((i + 1) as nat)) + after);
    assert(u =~= (before + (list + seq![':'] + strings::decimal_text((k + 1) as nat))) + after);
}

/// What stands behind the numbers of a plan.
spec fn plan_end(avx2: bool) -> Seq<char> {
    " thread(s) (avx2="@ + (if avx2 { "true"@ } else { "false"@ }) + ")"@
}

proof fn lemma_plan_parts(chunks: nat, size: nat, threads: nat, avx2: bool)
    ensures
        ({
            let c = strings::decimal_text(chunks);
            let s = strings::decimal_text(size);
            let t = strings::decimal_text(threads);
            parallel::plan_text(chunks, size, threads, avx2) == "wc: debug: "@ + c
                + " chunk(s) of ~"@ + s + " bytes across "@ + t + plan_end(avx2)
        }),
{
    let c = strings::decimal_text(chunks);
    let s = strings::decimal_text(size);
    let t = strings::decimal_text(threads);
    let before = "wc: debug: "@ + c + " chunk(s) of ~"@ + s + " bytes across "@ + t;
    let which = if avx2 { "true"@ } else { "false"@ };
    lemma_regroup(before, " thread(s) (avx2="@, which);
    lemma_regroup(before, " thread(s) (avx2="@ + which, ")"@);
}

proof fn lemma_regroup(a: Seq<char>, b: Seq<char>, c: Seq<char>)
    ensures
        a + b + c == a + (b + c),
{
    assert(a + b + c =~= a + (b + c));
}

proof fn lemma_regroup_all(
    a: Seq<char>,
    b: Seq<char>,
    c: Seq<char>,
    d: Seq<char>,
    e: Seq<char>,
    f: Seq<char>,
)
    ensures
        a + b + c + d + e + f == a + (b + c + d + e + f),
{
    lemma_regroup(a, b, c);
    lemma_regroup(a, b + c, d);
    lemma_regroup(a, b + c + d, e);
    lemma_regroup(a, b + c + d + e, f);
}

/// What is said of two plans is the same but for their numbers.
pub proof fn law_plans_tell_their_numbers(
    chunks: nat,
    size: nat,
    threads: nat,
    more: nat,
    avx2: bool,
)
    ensures
        differ_in(
            parallel::plan_text(chunks, size, threads, avx2),
            strings::decimal_text(chunks),
            parallel::plan_text(more, size, threads, avx2),
            strings::decimal_text(more),
        ),
        differ_in(
            parallel::plan_text(chunks, size, threads, avx2),
            strings::decimal_text(size),
            parallel::plan_text(chunks, more, threads, avx2),
            strings::decimal_text(more),
        ),
        differ_in(
            parallel::plan_text(chunks, size, threads, avx2),
            strings::decimal_text(threads),
            parallel::plan_text(chunks, size, more, avx2),
            strings::decimal_text(more),
        ),
{
    let c = strings::decimal_text(chunks);
    let s = strings::decimal_text(size);
    let t = strings::decimal_text(threads);
    let m = strings::decimal_text(more);
    let start = "wc: debug: "@;
    let of = " chunk(s) of ~"@;
    let across = " bytes across "@;
    let end = plan_end(avx2);
    lemma_plan_parts(chunks, size, threads, avx2);
    lemma_plan_parts(more, size, threads, avx2);
    lemma_plan_parts(chunks, more, threads, avx2);
    lemma_plan_parts(chunks, size, more, avx2);
    let plan = parallel::plan_text(chunks, size, threads, avx2);
    lemma_regroup_all(start + c, of, s, across, t, end);
    lemma_regroup_all(start + m, of, s, across, t, end);
    assert(differ_in(plan, c, parallel::plan_text(more, size, threads, avx2), m)) by {
        let rest = of + s + across + t + end;
        assert(plan == start + c + rest);
        assert(parallel::plan_text(more, size, threads, avx2) == start + m + rest);
    }
    assert(differ_in(plan, s, parallel::plan_text(chunks, more, threads, avx2), m)) by {
        let before = start + c + of;
        lemma_regroup(before + s, across, t);
        lemma_regroup(before + s, across + t, end);
        lemma_regroup(before + m, across, t);
        lemma_regroup(before + m, across + t, end);
        let rest = across + t + end;
        assert(plan == before + s + rest);
        assert(parallel::plan_text(chunks, more, threads, avx2) == before + m + rest);
    }
    assert(differ_in(plan, t, parallel::plan_text(chunks, size, more, avx2), m)) by {
        let before = start + c + of + s + across;
        assert(plan == before + t + end);
        assert(parallel::plan_text(chunks, size, more, avx2) == before + m + end);
    }
}

/// What is said of a mapped file tells how many chunks there are, how large
/// they are meant to be, and how many threads count them.
pub proof fn law_debugging_tells_the_plan(
    s: Seq<u8>,
    mode: crate::ws::WsMode,
    threads: int,
    size: int,
)
    requires
        threads >= 1,
        size == parallel::target_size(s.len() as int, threads, 0x4_0000, 0x100_0000),
    ensures
        session::debug_text(s, mode, threads) == parallel::plan_text(
            parallel::chunk_ends(s, 0, size, mode.unicode).len(),
            size as nat,
            threads as nat,
            true,
        ),
{
}

/// A file whose lines are measured has the row of its text, whether its
/// characters are counted or not.
pub proof fn law_measured_row_is_the_row(
    o: OptionsView,
    s: Seq<u8>,
    width: spec_fn(u32) -> int,
    measured: Counts,
    whole: Counts,
    widths: Seq<usize>,
    name: Option<Seq<char>>,
)
    requires
        parallel::line_counts(s, o.print_chars, o.ws_mode, width, measured),
        parallel::line_counts(s, true, o.ws_mode, width, whole),
    ensures
        report::row_text(o, measured, widths, name) == report::row_text(o, whole, widths, name),
{
    crate::laws::law_row_shows_what_is_asked(o, measured, whole, widths, name);
}

/// A run has as many inputs as it visits: the files that are named, or
/// standard input where there is neither a file nor a list.
pub proof fn law_inputs_are_visited(o: OptionsView)
    ensures
        ({
            let n = report::input_count(o, o.files.len() as int);
            &&& n >= 0
            &&& forall|at: int|
                0 <= at ==> ((#[trigger] session::action_at(o, at)) is Done <==> at >= n)
            &&& n == o.files.len() || (n == 1 && o.files.len() == 0 && o.files_from is None)
        }),
{
}

/// The columns are aligned if the run shows more than one number, or more than
/// one input, and not the totals alone.
pub proof fn law_aligned_runs(o: OptionsView)
    ensures
        ({
            let one_number = report::column_count(o) == 1;
            let one_input = session::action_at(o, 1) is Done;
            report::aligned(o, o.files.len() as int, report::column_count(o)) <==> {
                &&& o.total_mode != TotalMode::Only
                &&& session::action_at(o, 0) !is Done
                &&& !(one_number && one_input)
            }
        }),
{
}

// ---------------------------------------------------------------------------
// The help page.

/// Each line of the help page on the output but the first names a letter and a
/// long option that ask for the same count, and each letter that is taken has one. The other
/// lines name the options that are taken beside them, with a placeholder where
/// they take a value.
pub proof fn law_help_lists_the_options(o: OptionsView, next: Option<Seq<char>>)
    ensures
        ({
            let rows = help::output_format_texts();
            &&& rows.len() == 6
            &&& forall|k: int|
                1 <= k < 6 ==> ({
                    let (short, long, placeholder, desc) = #[trigger] rows[k];
                    &&& short.len() == 2 && short[0] == '-'
                    &&& placeholder is None
                    &&& options::letter_column(short[1]) is Some
                    &&& options::letter_column(short[1]) == options::name_column(long)
                })
            &&& forall|i: int, j: int|
                1 <= i < j < 6 ==> options::name_column((#[trigger] rows[i]).1)
                    != options::name_column((#[trigger] rows[j]).1)
            &&& forall|c: char| #[trigger]
                options::letter_column(c) is Some ==> exists|k: int|
                    1 <= k < 6 && (#[trigger] rows[k]).0[1] == c
        }),
        ({
            let rows = help::total_files_texts();
            &&& rows.len() == 2
            &&& forall|k: int|
                0 <= k < 2 ==> ({
                    let (short, long, placeholder, desc) = #[trigger] rows[k];
                    &&& short.len() == 0
                    &&& placeholder is Some
                    &&& options::named_step(o, long, None, None) matches StepView::Stop(p) && (p
                        == ParsedView::Refused(RefusalView::TotalNeedsValue) || p
                        == ParsedView::Refused(RefusalView::FilesFromNeedsValue))
                })
        }),
        ({
            let rows = help::misc_texts();
            &&& rows.len() == 3
            &&& options::named_step(o, rows[0].1, None, next) == StepView::Next(
                OptionsView { debug: true, ..o },
                1,
            )
            &&& options::named_step(o, rows[1].1, None, next) == StepView::Stop(ParsedView::Help)
            &&& options::named_step(o, rows[2].1, None, next) == StepView::Stop(ParsedView::Version)
        }),
        help::all_sections().len() == 3,
        help::all_sections()[0].1 == help::output_format_texts(),
        help::all_sections()[1].1 == help::total_files_texts(),
        help::all_sections()[2].1 == help::misc_texts(),
{
    let rows = help::output_format_texts();
    reveal_strlit("");
    reveal_strlit("-l");
    reveal_strlit("-w");
    reveal_strlit("-c");
    reveal_strlit("-m");
    reveal_strlit("-L");
    law_other_long_names(o, ""@, None, next);
    law_options_with_a_value(o, ""@, next);
    lemma_names_differ();
    let names = seq![
        "--bytes"@,
        "--chars"@,
        "--lines"@,
        "--words"@,
        "--max-line-length"@,
        "--debug"@,
        "--help"@,
        "--version"@,
        "--files0-from"@,
        "--total"@,
    ];
    assert(names[0] != names[1] && names[0] != names[2] && names[0] != names[3] && names[0]
        != names[4] && names[1] != names[2] && names[1] != names[3] && names[1] != names[4]
        && names[2] != names[3] && names[2] != names[4] && names[3] != names[4]);
    assert(options::name_column(rows[1].1) == Some(Column::Lines));
    assert(options::name_column(rows[2].1) == Some(Column::Words));
    assert(options::name_column(rows[3].1) == Some(Column::Bytes));
    assert(options::name_column(rows[4].1) == Some(Column::Chars));
    assert(options::name_column(rows[5].1) == Some(Column::LineLength));
    assert forall|c: char| #[trigger] options::letter_column(c) is Some implies exists|k: int|
        1 <= k < 6 && (#[trigger] rows[k]).0[1] == c by {
        assert(rows[1].0[1] == 'l' && rows[2].0[1] == 'w' && rows[3].0[1] == 'c' && rows[4].0[1]
            == 'm' && rows[5].0[1] == 'L');
    }
}

} // verus!
