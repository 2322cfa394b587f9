//! The command line.
use crate::names;
use crate::strings;
use crate::strings::{chars_of, lossy, same};
use crate::ws::WsMode;
use vstd::prelude::*;
use vstd::slice::slice_to_vec;
use vstd::string::*;

verus! {

/// When a row with the totals is printed.
#[derive(Clone, Copy, PartialEq, Eq, Debug, Structural)]
pub enum TotalMode {
    /// When there is more than one file.
    Auto,
    Always,
    /// Always, and no other row.
    Only,
    Never,
}

/// What the command line asks for.
#[derive(Debug)]
pub struct Options {
    pub print_lines: bool,
    pub print_words: bool,
    pub print_chars: bool,
    pub print_bytes: bool,
    pub print_linelength: bool,
    pub debug: bool,
    pub end_of_opts: bool,
    pub total_mode: TotalMode,
    pub files_from: Option<String>,
    pub files: Vec<Vec<u8>>,
    pub ws_mode: WsMode,
}

/// The contents of `Options`.
#[verifier::ext_equal]
pub struct OptionsView {
    pub print_lines: bool,
    pub print_words: bool,
    pub print_chars: bool,
    pub print_bytes: bool,
    pub print_linelength: bool,
    pub debug: bool,
    pub end_of_opts: bool,
    pub total_mode: TotalMode,
    pub files_from: Option<Seq<char>>,
    pub files: Seq<Seq<u8>>,
    pub ws_mode: WsMode,
}

/// The text, where there is one.
pub open spec fn text_of(t: Option<String>) -> Option<Seq<char>> {
    match t {
        Some(s) => Some(s@),
        None => None,
    }
}

/// The text, where there is one.
pub open spec fn str_of(t: Option<&str>) -> Option<Seq<char>> {
    match t {
        Some(s) => Some(s@),
        None => None,
    }
}

impl View for Options {
    type V = OptionsView;

    open spec fn view(&self) -> OptionsView {
        OptionsView {
            print_lines: self.print_lines,
            print_words: self.print_words,
            print_chars: self.print_chars,
            print_bytes: self.print_bytes,
            print_linelength: self.print_linelength,
            debug: self.debug,
            end_of_opts: self.end_of_opts,
            total_mode: self.total_mode,
            files_from: text_of(self.files_from),
            files: names::name_views(self.files@),
            ws_mode: self.ws_mode,
        }
    }
}

/// The options of an empty command line, before the counts that are printed by
/// default are chosen.
pub open spec fn no_options(ws_mode: WsMode) -> OptionsView {
    OptionsView {
        print_lines: false,
        print_words: false,
        print_chars: false,
        print_bytes: false,
        print_linelength: false,
        debug: false,
        end_of_opts: false,
        total_mode: TotalMode::Auto,
        files_from: None,
        files: Seq::empty(),
        ws_mode,
    }
}

impl Options {
    /// Options that choose nothing, for texts that are read as `ws_mode` says.
    pub fn new(ws_mode: WsMode) -> (opts: Options)
        ensures
            opts@ == no_options(ws_mode),
    {
        let opts = Options {
            print_lines: false,
            print_words: false,
            print_chars: false,
            print_bytes: false,
            print_linelength: false,
            debug: false,
            end_of_opts: false,
            total_mode: TotalMode::Auto,
            files_from: None,
            files: Vec::new(),
            ws_mode,
        };
        assert(opts@.files =~= Seq::<Seq<u8>>::empty());
        opts
    }
}

/// A count that can be printed.
#[derive(Clone, Copy, PartialEq, Eq, Debug, Structural)]
pub enum Column {
    Lines,
    Words,
    Chars,
    Bytes,
    LineLength,
}

/// The options `o` with one more count to print.
pub open spec fn printing(o: OptionsView, column: Column) -> OptionsView {
    match column {
        Column::Lines => OptionsView { print_lines: true, ..o },
        Column::Words => OptionsView { print_words: true, ..o },
        Column::Chars => OptionsView { print_chars: true, ..o },
        Column::Bytes => OptionsView { print_bytes: true, ..o },
        Column::LineLength => OptionsView { print_linelength: true, ..o },
    }
}

/// The count that a letter stands for.
pub open spec fn letter_column(c: char) -> Option<Column> {
    if c == 'c' {
        Some(Column::Bytes)
    } else if c == 'm' {
        Some(Column::Chars)
    } else if c == 'l' {
        Some(Column::Lines)
    } else if c == 'w' {
        Some(Column::Words)
    } else if c == 'L' {
        Some(Column::LineLength)
    } else {
        None
    }
}

/// The count that a long option stands for.
pub open spec fn name_column(name: Seq<char>) -> Option<Column> {
    if name == "--bytes"@ {
        Some(Column::Bytes)
    } else if name == "--chars"@ {
        Some(Column::Chars)
    } else if name == "--lines"@ {
        Some(Column::Lines)
    } else if name == "--words"@ {
        Some(Column::Words)
    } else if name == "--max-line-length"@ {
        Some(Column::LineLength)
    } else {
        None
    }
}

fn column_of_letter(c: char) -> (r: Option<Column>)
    ensures
        r == letter_column(c),
{
    match c {
        'c' => Some(Column::Bytes),
        'm' => Some(Column::Chars),
        'l' => Some(Column::Lines),
        'w' => Some(Column::Words),
        'L' => Some(Column::LineLength),
        _ => None,
    }
}

fn column_of_name(name: &str) -> (r: Option<Column>)
    ensures
        r == name_column(name@),
{
    if same(name, "--bytes") {
        Some(Column::Bytes)
    } else if same(name, "--chars") {
        Some(Column::Chars)
    } else if same(name, "--lines") {
        Some(Column::Lines)
    } else if same(name, "--words") {
        Some(Column::Words)
    } else if same(name, "--max-line-length") {
        Some(Column::LineLength)
    } else {
        None
    }
}

impl Options {
    fn print(&mut self, column: Column)
        ensures
            final(self)@ == printing(old(self)@, column),
    {
        match column {
            Column::Lines => {
                self.print_lines = true;
            },
            Column::Words => {
                self.print_words = true;
            },
            Column::Chars => {
                self.print_chars = true;
            },
            Column::Bytes => {
                self.print_bytes = true;
            },
            Column::LineLength => {
                self.print_linelength = true;
            },
        }
    }
}

/// Why a command line is refused.
#[derive(Debug)]
pub enum Refusal {
    /// `--files0-from` is the last argument and has no value.
    FilesFromNeedsValue,
    /// `--total` is the last argument and has no value.
    TotalNeedsValue,
    /// `--total` has another value than auto, always, only and never.
    UnknownTotal(String),
    UnknownOption(String),
    UnknownLetter(char),
}

/// The contents of a `Refusal`.
pub enum RefusalView {
    FilesFromNeedsValue,
    TotalNeedsValue,
    UnknownTotal(Seq<char>),
    UnknownOption(Seq<char>),
    UnknownLetter(char),
}

impl View for Refusal {
    type V = RefusalView;

    open spec fn view(&self) -> RefusalView {
        match self {
            Refusal::FilesFromNeedsValue => RefusalView::FilesFromNeedsValue,
            Refusal::TotalNeedsValue => RefusalView::TotalNeedsValue,
            Refusal::UnknownTotal(t) => RefusalView::UnknownTotal(t@),
            Refusal::UnknownOption(t) => RefusalView::UnknownOption(t@),
            Refusal::UnknownLetter(c) => RefusalView::UnknownLetter(*c),
        }
    }
}

/// What a command line comes to.
#[derive(Debug)]
pub enum Parsed {
    Run(Options),
    Help,
    Version,
    Refused(Refusal),
}

/// The contents of a `Parsed`.
pub enum ParsedView {
    Run(OptionsView),
    Help,
    Version,
    Refused(RefusalView),
}

impl View for Parsed {
    type V = ParsedView;

    open spec fn view(&self) -> ParsedView {
        match self {
            Parsed::Run(o) => ParsedView::Run(o@),
            Parsed::Help => ParsedView::Help,
            Parsed::Version => ParsedView::Version,
            Parsed::Refused(r) => ParsedView::Refused(r@),
        }
    }
}

/// What one argument comes to: new options and how many arguments have been
/// used, or an end.
pub enum Step {
    Next(Options, usize),
    Stop(Parsed),
}

/// The contents of a `Step`.
pub enum StepView {
    Next(OptionsView, int),
    Stop(ParsedView),
}

impl View for Step {
    type V = StepView;

    open spec fn view(&self) -> StepView {
        match self {
            Step::Next(o, n) => StepView::Next(o@, *n as int),
            Step::Stop(p) => StepView::Stop(p@),
        }
    }
}

/// The index of the first `=` from `i` on, or the length.
pub open spec fn first_equals(t: Seq<char>, i: int) -> int
    decreases t.len() - i,
{
    if 0 <= i < t.len() && t[i] != '=' {
        first_equals(t, i + 1)
    } else {
        i
    }
}

/// The name of a long option: what stands before the first `=`.
pub open spec fn option_name(t: Seq<char>) -> Seq<char> {
    t.take(first_equals(t, 0))
}

/// The value of a long option: what stands behind the first `=`.
pub open spec fn option_value(t: Seq<char>) -> Option<Seq<char>> {
    let k = first_equals(t, 0);
    if k < t.len() {
        Some(t.skip(k + 1))
    } else {
        None
    }
}

/// The mode that a value of `--total` names.
pub open spec fn total_named(v: Seq<char>) -> Option<TotalMode> {
    if v == "auto"@ {
        Some(TotalMode::Auto)
    } else if v == "always"@ {
        Some(TotalMode::Always)
    } else if v == "only"@ {
        Some(TotalMode::Only)
    } else if v == "never"@ {
        Some(TotalMode::Never)
    } else {
        None
    }
}

/// What `--total` with the value `v` comes to.
pub open spec fn total_step(o: OptionsView, v: Seq<char>, used: int) -> StepView {
    match total_named(v) {
        Some(m) => StepView::Next(OptionsView { total_mode: m, ..o }, used),
        None => StepView::Stop(ParsedView::Refused(RefusalView::UnknownTotal(v))),
    }
}

/// What the long option `name` comes to, where `value` stands behind its `=`
/// and `next` is the argument behind it. The value of an option is what stands
/// behind its `=`, else the next argument; an option without a value ignores
/// what stands behind its `=`.
pub open spec fn named_step(
    o: OptionsView,
    name: Seq<char>,
    value: Option<Seq<char>>,
    next: Option<Seq<char>>,
) -> StepView {
    if name_column(name) is Some {
        StepView::Next(printing(o, name_column(name)->0), 1)
    } else if name == "--debug"@ {
        StepView::Next(OptionsView { debug: true, ..o }, 1)
    } else if name == "--help"@ {
        StepView::Stop(ParsedView::Help)
    } else if name == "--version"@ {
        StepView::Stop(ParsedView::Version)
    } else if name == "--files0-from"@ {
        match (value, next) {
            (Some(v), _) => StepView::Next(OptionsView { files_from: Some(v), ..o }, 1),
            (None, Some(v)) => StepView::Next(OptionsView { files_from: Some(v), ..o }, 2),
            (None, None) => StepView::Stop(
                ParsedView::Refused(RefusalView::FilesFromNeedsValue),
            ),
        }
    } else if name == "--total"@ {
        match (value, next) {
            (Some(v), _) => total_step(o, v, 1),
            (None, Some(v)) => total_step(o, v, 2),
            (None, None) => StepView::Stop(ParsedView::Refused(RefusalView::TotalNeedsValue)),
        }
    } else {
        StepView::Stop(ParsedView::Refused(RefusalView::UnknownOption(name)))
    }
}

/// What the long option `t` comes to, where `next` is the argument behind it.
pub open spec fn long_step(o: OptionsView, t: Seq<char>, next: Option<Seq<char>>) -> StepView {
    named_step(o, option_name(t), option_value(t), next)
}

/// What the letters of a short option come to from the one at `i` on: each
/// stands for a count, and any other is refused.
pub open spec fn letters_step(o: OptionsView, letters: Seq<char>, i: int) -> StepView
    decreases letters.len() - i,
{
    if 0 <= i < letters.len() {
        let c = letters[i];
        if letter_column(c) is Some {
            letters_step(printing(o, letter_column(c)->0), letters, i + 1)
        } else {
            StepView::Stop(ParsedView::Refused(RefusalView::UnknownLetter(c)))
        }
    } else {
        StepView::Next(o, 1)
    }
}

/// An argument: its bytes, its text, and the text behind its first byte.
pub struct Arg {
    pub bytes: Vec<u8>,
    pub text: String,
    pub letters: String,
}

/// The contents of an `Arg`.
pub struct ArgView {
    pub bytes: Seq<u8>,
    pub text: Seq<char>,
    pub letters: Seq<char>,
}

impl View for Arg {
    type V = ArgView;

    open spec fn view(&self) -> ArgView {
        ArgView { bytes: self.bytes@, text: self.text@, letters: self.letters@ }
    }
}

/// The argument names a file: it has no dash in front or is nothing else, or
/// `--` came before it.
pub open spec fn is_operand(o: OptionsView, bytes: Seq<u8>) -> bool {
    o.end_of_opts || bytes == seq![0x2du8] || !(bytes.len() > 0 && bytes[0] == 0x2d)
}

/// What the argument `a` comes to, where `next` is the text of the argument
/// behind it.
pub open spec fn arg_step(o: OptionsView, a: ArgView, next: Option<Seq<char>>) -> StepView {
    if is_operand(o, a.bytes) {
        StepView::Next(OptionsView { files: o.files.push(a.bytes), ..o }, 1)
    } else if a.bytes == seq![0x2du8, 0x2du8] {
        StepView::Next(OptionsView { end_of_opts: true, ..o }, 1)
    } else if a.bytes.len() > 1 && a.bytes[1] == 0x2d {
        long_step(o, a.text, next)
    } else {
        letters_step(o, a.letters, 0)
    }
}

proof fn lemma_letters_size(o: OptionsView, letters: Seq<char>, i: int)
    ensures
        letters_step(o, letters, i) matches StepView::Next(p, n) ==> n == 1,
    decreases letters.len() - i,
{
    if 0 <= i < letters.len() {
        lemma_letters_size(printing(o, letter_column(letters[i])->0), letters, i + 1);
    }
}

/// An argument that is taken is used up, and the one behind it if it is its
/// value.
pub proof fn lemma_step_size(o: OptionsView, a: ArgView, next: Option<Seq<char>>)
    ensures
        arg_step(o, a, next) matches StepView::Next(p, n) ==> 1 <= n <= 2 && (n == 2 ==> next
            is Some),
{
    lemma_letters_size(o, a.letters, 0);
}

proof fn lemma_letters_no_run(o: OptionsView, letters: Seq<char>, i: int)
    ensures
        letters_step(o, letters, i) matches StepView::Stop(p) ==> p !is Run,
    decreases letters.len() - i,
{
    if 0 <= i < letters.len() {
        lemma_letters_no_run(printing(o, letter_column(letters[i])->0), letters, i + 1);
    }
}

/// No argument ends the command line with a run.
pub proof fn lemma_no_run(o: OptionsView, a: ArgView, next: Option<Seq<char>>)
    ensures
        arg_step(o, a, next) matches StepView::Stop(p) ==> p !is Run,
{
    lemma_letters_no_run(o, a.letters, 0);
}

/// Lines, words and bytes are printed where nothing else is asked for.
pub open spec fn with_defaults(o: OptionsView) -> OptionsView {
    if o.print_lines || o.print_words || o.print_chars || o.print_bytes || o.print_linelength {
        o
    } else {
        OptionsView { print_lines: true, print_words: true, print_bytes: true, ..o }
    }
}

/// What the arguments from the one at `i` on come to.
pub open spec fn parsed_from(args: Seq<ArgView>, i: int, o: OptionsView) -> ParsedView
    decreases args.len() - i,
{
    if 0 <= i < args.len() {
        let next = if i + 1 < args.len() { Some(args[i + 1].text) } else { None };
        proof {
            lemma_step_size(o, args[i], next);
        }
        match arg_step(o, args[i], next) {
            StepView::Next(p, n) => parsed_from(args, i + n, p),
            StepView::Stop(p) => p,
        }
    } else {
        ParsedView::Run(with_defaults(o))
    }
}

/// Is the argument the one dash?
pub fn is_dash(b: &[u8]) -> (r: bool)
    ensures
        r == (b@ == seq![0x2du8]),
{
    let r: bool = b.len() == 1 && b[0] == 0x2d;
    proof {
        if r {
            assert(b@ =~= seq![0x2du8]);
        }
    }
    r
}

/// What the value `v` of `--total` comes to.
fn set_total(opts: Options, v: &str, used: usize) -> (r: Step)
    ensures
        r@ == total_step(opts@, v@, used as int),
{
    let mut o = opts;
    if same(v, "auto") {
        o.total_mode = TotalMode::Auto;
    } else if same(v, "always") {
        o.total_mode = TotalMode::Always;
    } else if same(v, "only") {
        o.total_mode = TotalMode::Only;
    } else if same(v, "never") {
        o.total_mode = TotalMode::Never;
    } else {
        return Step::Stop(Parsed::Refused(Refusal::UnknownTotal(v.to_owned())));
    }
    Step::Next(o, used)
}

/// What the long option `name` comes to, where `value` stands behind its `=`
/// and `next` is the argument behind it.
pub fn named_option(opts: Options, name: &str, value: Option<&str>, next: Option<&str>) -> (r: Step)
    ensures
        r@ == named_step(opts@, name@, str_of(value), str_of(next)),
{
    let mut o = opts;
    let column: Option<Column> = column_of_name(name);
    if let Some(c) = column {
        o.print(c);
    } else if same(name, "--debug") {
        o.debug = true;
    } else if same(name, "--help") {
        return Step::Stop(Parsed::Help);
    } else if same(name, "--version") {
        return Step::Stop(Parsed::Version);
    } else if same(name, "--files0-from") {
        match value {
            Some(v) => {
                o.files_from = Some(v.to_owned());
            },
            None => match next {
                Some(v) => {
                    o.files_from = Some(v.to_owned());
                    return Step::Next(o, 2);
                },
                None => {
                    return Step::Stop(Parsed::Refused(Refusal::FilesFromNeedsValue));
                },
            },
        }
    } else if same(name, "--total") {
        match value {
            Some(v) => {
                return set_total(o, v, 1);
            },
            None => match next {
                Some(v) => {
                    return set_total(o, v, 2);
                },
                None => {
                    return Step::Stop(Parsed::Refused(Refusal::TotalNeedsValue));
                },
            },
        }
    } else {
        return Step::Stop(Parsed::Refused(Refusal::UnknownOption(name.to_owned())));
    }
    Step::Next(o, 1)
}

/// What the long option `text` comes to, where `next` is the argument behind
/// it.
pub fn long_option(opts: Options, text: &str, next: Option<&str>) -> (r: Step)
    ensures
        r@ == long_step(opts@, text@, str_of(next)),
{
    let chars: Vec<char> = chars_of(text);
    let n: usize = chars.len();
    let mut k: usize = 0;
    while k < n && chars[k] != '='
        invariant
            chars@ == text@,
            n == chars@.len(),
            k <= n,
            first_equals(text@, 0) == first_equals(text@, k as int),
        decreases n - k,
    {
        k = k + 1;
    }
    let name: &str = text.substring_char(0, k);
    let value: Option<&str> = if k < n {
        Some(text.substring_char(k + 1, n))
    } else {
        None
    };
    proof {
        assert(name@ =~= option_name(text@));
        if k < n {
            assert(text@.subrange(k + 1, n as int) =~= text@.skip(k + 1));
        }
    }
    named_option(opts, name, value, next)
}

/// What the letters of a short option come to.
pub fn short_options(opts: Options, letters: &str) -> (r: Step)
    ensures
        r@ == letters_step(opts@, letters@, 0),
{
    let ghost start = opts@;
    let mut o = opts;
    let chars: Vec<char> = chars_of(letters);
    let mut i: usize = 0;
    while i < chars.len()
        invariant
            start == opts@,
            chars@ == letters@,
            i <= chars@.len(),
            letters_step(start, letters@, 0) == letters_step(o@, letters@, i as int),
        decreases chars.len() - i,
    {
        let c: char = chars[i];
        match column_of_letter(c) {
            Some(k) => {
                o.print(k);
                assert(letter_column(letters@[i as int]) == Some(k));
            },
            None => {
                return Step::Stop(Parsed::Refused(Refusal::UnknownLetter(c)));
            },
        }
        i = i + 1;
    }
    Step::Next(o, 1)
}

/// The contents of each argument.
pub open spec fn arg_views(args: Seq<Arg>) -> Seq<ArgView> {
    Seq::new(args.len(), |i: int| args[i]@)
}

/// Parse arguments whose texts are known.
pub fn parse_texts(args: &Vec<Arg>, ws_mode: WsMode) -> (r: Parsed)
    ensures
        r@ == parsed_from(arg_views(args@), 0, no_options(ws_mode)),
{
    let ghost views = arg_views(args@);
    let mut opts: Options = Options::new(ws_mode);
    let mut i: usize = 0;
    while i < args.len()
        invariant
            views == arg_views(args@),
            i <= args@.len(),
            parsed_from(views, 0, no_options(ws_mode)) == parsed_from(views, i as int, opts@),
        decreases args.len() - i,
    {
        let arg: &Arg = &args[i];
        let ghost next_view = if i + 1 < views.len() { Some(views[i + 1].text) } else { None };
        proof {
            lemma_step_size(opts@, views[i as int], next_view);
            assert(views[i as int] == arg@);
        }
        let bytes: &Vec<u8> = &arg.bytes;
        let step: Step = if opts.end_of_opts || is_dash(bytes.as_slice()) || !(bytes.len() > 0
            && bytes[0] == 0x2d) {
            let ghost before = opts@;
            let mut o = opts;
            o.files.push(slice_to_vec(bytes.as_slice()));
            assert(o@.files =~= before.files.push(bytes@));
            Step::Next(o, 1)
        } else if bytes.len() == 2 && bytes[1] == 0x2d {
            assert(bytes@ =~= seq![0x2du8, 0x2du8]);
            let mut o = opts;
            o.end_of_opts = true;
            Step::Next(o, 1)
        } else if bytes.len() > 1 && bytes[1] == 0x2d {
            let next: Option<&str> = if args.len() - i > 1 {
                Some(args[i + 1].text.as_str())
            } else {
                None
            };
            long_option(opts, arg.text.as_str(), next)
        } else {
            short_options(opts, arg.letters.as_str())
        };
        match step {
            Step::Next(o, n) => {
                opts = o;
                i = i + n;
            },
            Step::Stop(p) => {
                return p;
            },
        }
    }
    if !(opts.print_lines || opts.print_words || opts.print_chars || opts.print_bytes
        || opts.print_linelength) {
        opts.print_lines = true;
        opts.print_words = true;
        opts.print_bytes = true;
    }
    Parsed::Run(opts)
}

/// The contents of each argument of a command line.
pub open spec fn lossy_args(args: Seq<Seq<u8>>) -> Seq<ArgView> {
    Seq::new(
        args.len(),
        |i: int|
            ArgView {
                bytes: args[i],
                text: strings::lossy_text(args[i]),
                letters: strings::lossy_text(
                    if args[i].len() > 0 {
                        args[i].skip(1)
                    } else {
                        args[i]
                    },
                ),
            },
    )
}

/// Parse the arguments of a command line, which need not be UTF-8. The name of
/// the program is not among them.
pub fn parse_args(args: &Vec<Vec<u8>>, ws_mode: WsMode) -> (r: Parsed)
    ensures
        r@ == parsed_from(lossy_args(names::name_views(args@)), 0, no_options(ws_mode)),
        forall|k: int|
            0 <= k < args@.len() ==> strings::text_known((#[trigger] args@[k])@) && (
            args@[k]@.len() > 0 ==> strings::text_known(args@[k]@.skip(1))),
{
    let ghost views = lossy_args(names::name_views(args@));
    let mut known: Vec<Arg> = Vec::new();
    let mut i: usize = 0;
    while i < args.len()
        invariant
            views == lossy_args(names::name_views(args@)),
            i <= args@.len(),
            known@.len() == i,
            forall|k: int| 0 <= k < i ==> (#[trigger] known@[k])@ == views[k],
            forall|k: int|
                0 <= k < i ==> strings::text_known((#[trigger] args@[k])@) && (args@[k]@.len() > 0
                    ==> strings::text_known(args@[k]@.skip(1))),
        decreases args.len() - i,
    {
        let bytes: &[u8] = args[i].as_slice();
        let rest: &[u8] = if bytes.len() > 0 {
            &bytes[1..bytes.len()]
        } else {
            bytes
        };
        assert(bytes@.len() > 0 ==> rest@ =~= bytes@.skip(1));
        known.push(Arg { bytes: slice_to_vec(bytes), text: lossy(bytes), letters: lossy(rest) });
        i = i + 1;
    }
    assert(arg_views(known@) =~= views);
    parse_texts(&known, ws_mode)
}

/// The last line of most refusals.
pub open spec fn usage_hint() -> Seq<char> {
    "\nTry 'wc --help' for more information."@
}

/// What is said of a refused command line.
pub open spec fn refusal_text(r: RefusalView) -> Seq<char> {
    match r {
        RefusalView::FilesFromNeedsValue => "wc: option '--files0-from' requires an argument"@
            + usage_hint(),
        RefusalView::TotalNeedsValue => "wc: option '--total' requires an argument"@
            + usage_hint(),
        RefusalView::UnknownTotal(v) => "wc: invalid argument '"@ + v
            + "' for '--total'\nValid arguments are:\n  - 'auto'\n  - 'always'\n  - 'only'\n  - 'never'"@,
        RefusalView::UnknownOption(name) => "wc: unrecognized option '"@ + name + "'"@
            + usage_hint(),
        RefusalView::UnknownLetter(c) => "wc: invalid option -- '"@ + seq![c] + "'"@
            + usage_hint(),
    }
}

impl Refusal {
    /// What is said of a refused command line.
    pub fn message(&self) -> (r: String)
        ensures
            r@ == refusal_text(self@),
    {
        let mut s: String = String::new();
        match self {
            Refusal::FilesFromNeedsValue => {
                s.append("wc: option '--files0-from' requires an argument");
            },
            Refusal::TotalNeedsValue => {
                s.append("wc: option '--total' requires an argument");
            },
            Refusal::UnknownTotal(v) => {
                s.append("wc: invalid argument '");
                s.append(v.as_str());
                s.append(
                    "' for '--total'\nValid arguments are:\n  - 'auto'\n  - 'always'\n  - 'only'\n  - 'never'",
                );
                assert(s@ =~= refusal_text(self@));
                return s;
            },
            Refusal::UnknownOption(name) => {
                s.append("wc: unrecognized option '");
                s.append(name.as_str());
                s.append("'");
            },
            Refusal::UnknownLetter(c) => {
                s.append("wc: invalid option -- '");
                s.push(*c);
                s.append("'");
            },
        }
        s.append("\nTry 'wc --help' for more information.");
        assert(s@ =~= refusal_text(self@));
        s
    }
}

} // verus!
