//! A run: which inputs are read, and what is printed of them.
use crate::count;
use crate::count::Counts;
use crate::options;
use crate::options::{is_dash, Options, OptionsView, TotalMode};
use crate::parallel;
use crate::parallel::{
    count_parallel, count_parallel_linelength, plan_parallel, ParallelPlan,
};
use crate::report;
use crate::report::{compute_widths, count_columns, write_counts, FileKind, InputStat};
use crate::strings;
use crate::strings::{decimal, lossy, same};
use crate::ws;
use crate::ws::WsMode;
use vstd::prelude::*;
use vstd::slice::slice_to_vec;
use vstd::string::*;

verus! {

/// Where the names of the inputs come from.
#[derive(Clone, Copy, PartialEq, Eq, Debug, Structural)]
pub enum Start {
    /// From the command line. Without a name there, standard input is read.
    Operands,
    /// From the file that `--files0-from` names.
    ListFile,
    /// From standard input, which `--files0-from` names by a dash.
    ListStdin,
    /// From both a list and the command line, which is refused.
    ExtraOperand,
}

/// Where the names of the inputs come from.
pub open spec fn start_of(o: OptionsView) -> Start {
    match o.files_from {
        None => Start::Operands,
        Some(list) => if o.files.len() > 0 {
            Start::ExtraOperand
        } else if list == "-"@ {
            Start::ListStdin
        } else {
            Start::ListFile
        },
    }
}

/// Where the names of the inputs come from.
pub fn start(opts: &Options) -> (r: Start)
    ensures
        r == start_of(opts@),
{
    match &opts.files_from {
        None => Start::Operands,
        Some(list) => if opts.files.len() > 0 {
            Start::ExtraOperand
        } else if same(list.as_str(), "-") {
            Start::ListStdin
        } else {
            Start::ListFile
        },
    }
}

/// A dash stands for standard input, wherever it was given.
pub open spec fn names_stdin(name: Seq<u8>) -> bool {
    name == seq![0x2du8]
}

/// Does `name` stand for standard input?
pub fn is_stdin(name: &[u8]) -> (r: bool)
    ensures
        r == names_stdin(name@),
{
    is_dash(name)
}

/// How an input that has been opened is counted.
#[derive(Clone, Copy, PartialEq, Eq, Debug, Structural)]
pub enum Route {
    /// Its size is the answer.
    Known(Counts),
    /// It cannot be read: the counts are printed, then an error.
    Unreadable(Counts),
    /// It is mapped into memory and counted there.
    Mapped,
    /// It is read piece by piece.
    Streamed,
}

/// The greatest size of a file that is not mapped: 64 KiB.
pub const STREAM_MAX: u64 = 0x1_0000;

/// Bytes are the only count that is asked for.
pub open spec fn only_bytes(o: OptionsView) -> bool {
    o.print_bytes && report::column_count(o) == 1
}

/// How an input that has been opened is counted. A directory opens fine; the
/// failure only shows up on reading it.
pub open spec fn route_of(o: OptionsView, st: InputStat) -> Route {
    if only_bytes(o) && st.kind is Regular {
        Route::Known(Counts { bytes: st.len, ..count::no_counts() })
    } else if st.kind is Directory {
        Route::Unreadable(count::no_counts())
    } else if st.kind is Regular && st.len > STREAM_MAX {
        Route::Mapped
    } else {
        Route::Streamed
    }
}

/// How an input that has been opened is counted.
pub fn route(opts: &Options, st: InputStat) -> (r: Route)
    ensures
        r == route_of(opts@, st),
{
    let bytes_alone: bool = opts.print_bytes && !opts.print_lines && !opts.print_words
        && !opts.print_chars && !opts.print_linelength;
    if bytes_alone && st.kind == FileKind::Regular {
        let mut counts: Counts = Counts::default();
        counts.bytes = st.len;
        return Route::Known(counts);
    }
    if st.kind == FileKind::Directory {
        return Route::Unreadable(Counts::default());
    }
    if st.kind == FileKind::Regular && st.len > STREAM_MAX {
        return Route::Mapped;
    }
    Route::Streamed
}

/// The counts of a file that is mapped into memory.
pub fn count_mapped<W: Fn(u32) -> i32 + Sync>(data: &[u8], opts: &Options, wcwidth: &W) -> (r:
    Counts)
    requires
        opts.print_linelength ==> count::columns_fit(0, data@.len() as int),
        ws::is_width_function(wcwidth),
    ensures
        opts@.print_linelength ==> parallel::line_counts(
            data@,
            opts@.print_chars,
            opts@.ws_mode,
            ws::width_of(wcwidth),
            r,
        ),
        !opts@.print_linelength ==> parallel::part_counts(
            data@,
            true,
            opts@.print_chars,
            opts@.print_lines || opts@.print_words,
            opts@.ws_mode,
            r,
        ),
{
    if opts.print_linelength {
        count_parallel_linelength(data, opts.print_chars, opts.ws_mode, wcwidth)
    } else {
        count_parallel(data, opts.print_chars, opts.print_lines || opts.print_words, opts.ws_mode)
    }
}

/// What is said of the text `s` when it is spread across `threads` threads.
pub open spec fn debug_text(s: Seq<u8>, mode: WsMode, threads: int) -> Seq<char> {
    let size = parallel::target_size(
        s.len() as int,
        threads,
        parallel::CHUNK_MIN as int,
        parallel::CHUNK_MAX as int,
    );
    parallel::plan_text(
        parallel::chunk_ends(s, 0, size, mode.unicode).len(),
        size as nat,
        threads as nat,
        true,
    )
}

/// A mapped file of `len` bytes is spoken of before it is counted: debugging
/// is asked for, and it is cut into chunks that need not be lines.
pub open spec fn debugged(o: OptionsView, len: int) -> bool {
    o.debug && !o.print_linelength && len > 0
}

/// What is said of a mapped file before it is counted, if anything is. The
/// number of threads is the machine's.
pub fn debug_line(data: &[u8], opts: &Options) -> (r: Option<String>)
    ensures
        r is Some == debugged(opts@, data@.len() as int),
        r matches Some(t) ==> exists|threads: int|
            threads >= 1 && t@ == #[trigger] debug_text(data@, opts@.ws_mode, threads),
{
    if !(opts.debug && !opts.print_linelength && data.len() > 0) {
        return None;
    }
    let plan: ParallelPlan = plan_parallel(data, opts.ws_mode);
    let t: String = plan.describe();
    proof {
        let ends = parallel::chunk_ends(data@, 0, plan.chunk_size as int, opts.ws_mode.unicode);
        assert(ends.len() == plan.bounds@.len());
        assert(t@ == debug_text(data@, opts@.ws_mode, plan.threads as int));
    }
    Some(t)
}

/// What is to be done with an operand.
#[derive(Debug)]
pub enum Operand {
    Stdin,
    File,
    /// It is not opened; the text says why.
    Refused(String),
}

/// The contents of an `Operand`.
pub enum OperandView {
    Stdin,
    File,
    Refused(Seq<char>),
}

impl View for Operand {
    type V = OperandView;

    open spec fn view(&self) -> OperandView {
        match self {
            Operand::Stdin => OperandView::Stdin,
            Operand::File => OperandView::File,
            Operand::Refused(t) => OperandView::Refused(t@),
        }
    }
}

/// What is to be done with the operand `name`, the one at `index`. A name of
/// no length is refused, with its number where it comes from a list; and so is
/// a dash in a list that is read from standard input.
pub open spec fn operand_of(o: OptionsView, index: int, name: Seq<u8>) -> OperandView {
    if name.len() == 0 {
        OperandView::Refused(
            match o.files_from {
                Some(list) => "wc: "@ + list + ":"@ + strings::decimal_text((index + 1) as nat)
                    + ": invalid zero-length file name"@,
                None => "wc: invalid zero-length file name"@,
            },
        )
    } else if o.files_from == Some("-"@) && names_stdin(name) {
        OperandView::Refused(
            "wc: when reading file names from stdin, no file name of '-' allowed"@,
        )
    } else if names_stdin(name) {
        OperandView::Stdin
    } else {
        OperandView::File
    }
}

/// What is to be done with the operand `name`, the one at `index`.
pub fn operand(opts: &Options, index: usize, name: &[u8]) -> (r: Operand)
    requires
        index < usize::MAX,
    ensures
        r@ == operand_of(opts@, index as int, name@),
{
    if name.len() == 0 {
        let mut s: String = String::new();
        match &opts.files_from {
            Some(list) => {
                s.append("wc: ");
                s.append(list.as_str());
                s.append(":");
                s.append(decimal((index + 1) as u64).as_str());
                s.append(": invalid zero-length file name");
                assert(s@ =~= "wc: "@ + list@ + ":"@ + strings::decimal_text((index + 1) as nat)
                    + ": invalid zero-length file name"@);
            },
            None => {
                s.append("wc: invalid zero-length file name");
                assert(s@ =~= "wc: invalid zero-length file name"@);
            },
        }
        return Operand::Refused(s);
    }
    let from_stdin: bool = match &opts.files_from {
        Some(list) => same(list.as_str(), "-"),
        None => false,
    };
    if from_stdin && is_stdin(name) {
        return Operand::Refused(
            "wc: when reading file names from stdin, no file name of '-' allowed".to_owned(),
        );
    }
    if is_stdin(name) {
        Operand::Stdin
    } else {
        Operand::File
    }
}

/// What came of an input. One that could not be opened has no row; one that
/// could not be read to its end has the counts that were gathered so far, and
/// an error. Errors are given by their texts.
#[derive(Debug)]
pub enum Outcome {
    Counted(Counts, Option<String>),
    NotOpened(String),
}

/// What is printed of an input.
#[derive(Debug)]
pub struct Report {
    pub row: Option<String>,
    pub diagnostic: Option<String>,
}

/// The sum of what `field` gives for each of `parts`.
pub open spec fn sum_of(parts: Seq<Counts>, field: spec_fn(Counts) -> int) -> int
    decreases parts.len(),
{
    if parts.len() == 0 {
        0
    } else {
        sum_of(parts.drop_last(), field) + field(parts.last())
    }
}

/// The longest line of `parts`, 0 at least.
pub open spec fn longest_of(parts: Seq<Counts>) -> int
    decreases parts.len(),
{
    if parts.len() == 0 {
        0
    } else {
        let before = longest_of(parts.drop_last());
        if parts.last().max_line_length > before {
            parts.last().max_line_length as int
        } else {
            before
        }
    }
}

/// `total` holds the sums of `parts`, and the longest of their lines.
pub open spec fn totals(parts: Seq<Counts>, total: Counts) -> bool {
    &&& total.lines == sum_of(parts, |c: Counts| c.lines as int)
    &&& total.words == sum_of(parts, |c: Counts| c.words as int)
    &&& total.chars == sum_of(parts, |c: Counts| c.chars as int)
    &&& total.bytes == sum_of(parts, |c: Counts| c.bytes as int)
    &&& total.max_line_length == longest_of(parts)
}

proof fn lemma_totals_push(parts: Seq<Counts>, total: Counts, c: Counts)
    requires
        totals(parts, total),
        total.sums_fit(c),
    ensures
        totals(parts.push(c), total.merged(c)),
{
    assert(parts.push(c).drop_last() =~= parts);
    reveal_with_fuel(sum_of, 2);
}

/// The row with the totals is printed. It depends on how many inputs were
/// given, whether or not they could be opened.
pub open spec fn total_printed(o: OptionsView) -> bool {
    match o.total_mode {
        TotalMode::Never => false,
        TotalMode::Always => true,
        TotalMode::Only => true,
        TotalMode::Auto => report::input_count(o, o.files.len() as int) > 1,
    }
}

/// The name in the row with the totals.
pub open spec fn total_name(o: OptionsView) -> Option<Seq<char>> {
    if o.total_mode == TotalMode::Only {
        None
    } else {
        Some("total"@)
    }
}

/// The error of an input, if there was one.
pub open spec fn error_of(outcome: Outcome) -> Option<Seq<char>> {
    match outcome {
        Outcome::Counted(_, Some(e)) => Some(e@),
        Outcome::Counted(_, None) => None,
        Outcome::NotOpened(e) => Some(e@),
    }
}

/// What has been counted, with the input that `outcome` came of.
pub open spec fn counted_with(parts: Seq<Counts>, outcome: Outcome) -> Seq<Counts> {
    match outcome {
        Outcome::Counted(c, _) => parts.push(c),
        Outcome::NotOpened(_) => parts,
    }
}

/// The totals, with the input that `outcome` came of.
pub open spec fn total_with(total: Counts, outcome: Outcome) -> Counts {
    match outcome {
        Outcome::Counted(c, _) => total.merged(c),
        Outcome::NotOpened(_) => total,
    }
}

/// The row of an input: none if it could not be opened, or if the totals are
/// the only row.
pub open spec fn row_of(
    o: OptionsView,
    widths: Seq<usize>,
    shown: Option<Seq<char>>,
    outcome: Outcome,
) -> Option<Seq<char>> {
    match outcome {
        Outcome::Counted(c, _) => if o.total_mode == TotalMode::Only {
            None
        } else {
            Some(report::row_text(o, c, widths, shown))
        },
        Outcome::NotOpened(_) => None,
    }
}

/// What is said of the error of an input. The one without a name is shown as
/// a dash.
pub open spec fn diagnostic_of(shown: Option<Seq<char>>, outcome: Outcome) -> Option<Seq<char>> {
    let name = match shown {
        Some(n) => n,
        None => "-"@,
    };
    match error_of(outcome) {
        Some(e) => Some("wc: "@ + name + ": "@ + e),
        None => None,
    }
}

/// What a run does next.
#[derive(Debug)]
pub enum Action {
    /// Count standard input, and record what came of it.
    CountStdin,
    /// Count the file of this name, and record what came of it.
    CountFile(Vec<u8>),
    /// Print this diagnostic.
    Say(String),
    /// Print the row with the totals, if there is one, and end.
    Done,
}

/// The contents of an `Action`.
pub enum ActionView {
    CountStdin,
    CountFile(Seq<u8>),
    Say(Seq<char>),
    Done,
}

impl View for Action {
    type V = ActionView;

    open spec fn view(&self) -> ActionView {
        match self {
            Action::CountStdin => ActionView::CountStdin,
            Action::CountFile(name) => ActionView::CountFile(name@),
            Action::Say(t) => ActionView::Say(t@),
            Action::Done => ActionView::Done,
        }
    }
}

/// What a run does behind its first `at` steps: the files come one by one, and
/// standard input where no file was named. An empty list has no input at all.
pub open spec fn action_at(o: OptionsView, at: int) -> ActionView {
    if at < o.files.len() {
        match operand_of(o, at, o.files[at]) {
            OperandView::Refused(t) => ActionView::Say(t),
            OperandView::Stdin => ActionView::CountStdin,
            OperandView::File => ActionView::CountFile(o.files[at]),
        }
    } else if at < report::input_count(o, o.files.len() as int) {
        ActionView::CountStdin
    } else {
        ActionView::Done
    }
}

/// The name of the input that was counted in the last of `at` steps; standard
/// input has none where no file was named.
pub open spec fn name_before(o: OptionsView, at: int) -> Option<Seq<u8>> {
    if o.files.len() == 0 {
        None
    } else {
        Some(o.files[at - 1])
    }
}

/// A run over all inputs: how many steps it has made, whether it waits for
/// what came of an input, the totals so far, and whether all went well.
pub struct Session {
    opts: Options,
    widths: [usize; 5],
    at: usize,
    awaiting: bool,
    total: Counts,
    ok: bool,
    counted: Ghost<Seq<Counts>>,
}

impl Session {
    /// What the run was asked for. The files are those that it reads.
    pub closed spec fn options(&self) -> OptionsView {
        self.opts@
    }

    /// The widths of the columns.
    pub closed spec fn column_widths(&self) -> Seq<usize> {
        self.widths@
    }

    /// How many steps have been made.
    pub closed spec fn steps(&self) -> nat {
        self.at as nat
    }

    /// The last step was to count an input, and what came of it has not been
    /// recorded yet.
    pub closed spec fn awaits(&self) -> bool {
        self.awaiting
    }

    /// The counts of all inputs that were counted, in order.
    pub closed spec fn counted_so_far(&self) -> Seq<Counts> {
        self.counted@
    }

    /// The totals so far.
    pub closed spec fn total_so_far(&self) -> Counts {
        self.total
    }

    /// No input was refused, could not be opened or could not be read.
    pub closed spec fn went_well(&self) -> bool {
        self.ok
    }

    /// The totals are those of what was counted, each step has counted one
    /// input at most, and no step goes beyond the last input.
    pub open spec fn valid(&self) -> bool {
        &&& totals(self.counted_so_far(), self.total_so_far())
        &&& self.counted_so_far().len() + (if self.awaits() { 1int } else { 0 }) <= self.steps()
        &&& self.steps() <= report::input_count(
            self.options(),
            self.options().files.len() as int,
        )
    }

    /// A run before its first input. The files of `opts` are those that it
    /// reads, from the command line or from a list.
    pub fn new(opts: Options, widths: [usize; 5]) -> (s: Session)
        ensures
            s.valid(),
            s.options() == opts@,
            s.column_widths() == widths@,
            s.steps() == 0,
            !s.awaits(),
            s.counted_so_far() == Seq::<Counts>::empty(),
            s.total_so_far() == count::no_counts(),
            s.went_well(),
    {
        Session {
            opts,
            widths,
            at: 0,
            awaiting: false,
            total: Counts::default(),
            ok: true,
            counted: Ghost(Seq::empty()),
        }
    }

    /// A run before its first input, with columns that are as wide as `stats`
    /// asks for: what is known of each file of `opts`, or of standard input
    /// where there is none.
    pub fn for_inputs(opts: Options, stats: &Vec<Option<InputStat>>) -> (s: Session)
        ensures
            s.valid(),
            s.options() == opts@,
            s.column_widths().len() == 5,
            forall|k: int|
                0 <= k < 5 ==> #[trigger] s.column_widths()[k] == if report::aligned(
                    opts@,
                    opts@.files.len() as int,
                    report::column_count(opts@),
                ) {
                    report::size_width(stats@)
                } else {
                    1
                },
            s.steps() == 0,
            !s.awaits(),
            s.counted_so_far() == Seq::<Counts>::empty(),
            s.total_so_far() == count::no_counts(),
            s.went_well(),
    {
        let nflags: usize = count_columns(&opts);
        let widths: [usize; 5] = compute_widths(&opts, opts.files.len(), nflags, stats);
        Session::new(opts, widths)
    }

    /// What the run was asked for.
    pub fn opts(&self) -> (r: &Options)
        ensures
            r@ == self.options(),
    {
        &self.opts
    }

    /// Make the next step. An operand that is refused makes the run fail.
    pub fn next_action(&mut self) -> (r: Action)
        requires
            old(self).valid(),
        ensures
            r@ == action_at(old(self).options(), old(self).steps() as int),
            final(self).valid(),
            final(self).options() == old(self).options(),
            final(self).column_widths() == old(self).column_widths(),
            final(self).steps() == old(self).steps() + if r is Done { 0nat } else { 1 },
            final(self).awaits() == (r is CountStdin || r is CountFile),
            final(self).counted_so_far() == old(self).counted_so_far(),
            final(self).total_so_far() == old(self).total_so_far(),
            final(self).went_well() == (old(self).went_well() && r !is Say),
    {
        let n: usize = self.opts.files.len();
        let at: usize = self.at;
        self.awaiting = false;
        if at < n {
            self.at = at + 1;
            let name: &Vec<u8> = &self.opts.files[at];
            match operand(&self.opts, at, name.as_slice()) {
                Operand::Refused(t) => {
                    self.ok = false;
                    Action::Say(t)
                },
                Operand::Stdin => {
                    self.awaiting = true;
                    Action::CountStdin
                },
                Operand::File => {
                    let file: Vec<u8> = slice_to_vec(name.as_slice());
                    self.awaiting = true;
                    Action::CountFile(file)
                },
            }
        } else if at == 0 && self.opts.files_from.is_none() {
            self.at = 1;
            self.awaiting = true;
            Action::CountStdin
        } else {
            Action::Done
        }
    }

    /// Do the totals with `c` fit their fields?
    pub fn has_room(&self, c: &Counts) -> (r: bool)
        ensures
            r == self.total_so_far().sums_fit(*c),
    {
        self.total.can_merge(c)
    }

    /// Take what came of the input of the last step, which is shown as `shown`,
    /// and say what is printed of it.
    pub fn record_as(&mut self, shown: Option<&str>, outcome: &Outcome) -> (r: Report)
        requires
            old(self).valid(),
            old(self).awaits(),
            outcome matches Outcome::Counted(c, _) ==> old(self).total_so_far().sums_fit(*c),
        ensures
            options::text_of(r.row) == row_of(
                old(self).options(),
                old(self).column_widths(),
                options::str_of(shown),
                *outcome,
            ),
            options::text_of(r.diagnostic) == diagnostic_of(options::str_of(shown), *outcome),
            final(self).valid(),
            final(self).options() == old(self).options(),
            final(self).column_widths() == old(self).column_widths(),
            final(self).steps() == old(self).steps(),
            !final(self).awaits(),
            final(self).counted_so_far() == counted_with(old(self).counted_so_far(), *outcome),
            final(self).total_so_far() == total_with(old(self).total_so_far(), *outcome),
            final(self).went_well() == (old(self).went_well() && error_of(*outcome) is None),
    {
        self.awaiting = false;
        let mut row: Option<String> = None;
        let error: Option<&String> = match outcome {
            Outcome::Counted(c, e) => {
                proof {
                    lemma_totals_push(self.counted@, self.total, *c);
                }
                self.total = self.total.merge(c);
                self.counted = Ghost(self.counted@.push(*c));
                if self.opts.total_mode != TotalMode::Only {
                    row = Some(write_counts(&self.opts, c, &self.widths, shown));
                }
                match e {
                    Some(t) => Some(t),
                    None => None,
                }
            },
            Outcome::NotOpened(e) => Some(e),
        };
        let mut diagnostic: Option<String> = None;
        if let Some(e) = error {
            self.ok = false;
            let mut s: String = String::new();
            s.append("wc: ");
            match shown {
                Some(n) => {
                    s.append(n);
                },
                None => {
                    s.append("-");
                },
            }
            s.append(": ");
            s.append(e.as_str());
            assert(s@ =~= diagnostic_of(options::str_of(shown), *outcome)->0);
            diagnostic = Some(s);
        }
        Report { row, diagnostic }
    }

    /// Take what came of the input of the last step, and say what is printed
    /// of it.
    pub fn record(&mut self, outcome: &Outcome) -> (r: Report)
        requires
            old(self).valid(),
            old(self).awaits(),
            outcome matches Outcome::Counted(c, _) ==> old(self).total_so_far().sums_fit(*c),
        ensures
            ({
                let shown = match name_before(old(self).options(), old(self).steps() as int) {
                    Some(n) => Some(strings::lossy_text(n)),
                    None => None,
                };
                &&& options::text_of(r.row) == row_of(
                    old(self).options(),
                    old(self).column_widths(),
                    shown,
                    *outcome,
                )
                &&& options::text_of(r.diagnostic) == diagnostic_of(shown, *outcome)
            }),
            name_before(old(self).options(), old(self).steps() as int) matches Some(n)
                ==> strings::text_known(n),
            final(self).valid(),
            final(self).options() == old(self).options(),
            final(self).column_widths() == old(self).column_widths(),
            final(self).steps() == old(self).steps(),
            !final(self).awaits(),
            final(self).counted_so_far() == counted_with(old(self).counted_so_far(), *outcome),
            final(self).total_so_far() == total_with(old(self).total_so_far(), *outcome),
            final(self).went_well() == (old(self).went_well() && error_of(*outcome) is None),
    {
        if self.opts.files.len() == 0 {
            self.record_as(None, outcome)
        } else {
            let shown: String = lossy(self.opts.files[self.at - 1].as_slice());
            self.record_as(Some(shown.as_str()), outcome)
        }
    }

    /// The row with the totals, if it is printed.
    pub fn total_row(&self) -> (r: Option<String>)
        requires
            self.valid(),
        ensures
            options::text_of(r) == if total_printed(self.options()) {
                Some(
                    report::row_text(
                        self.options(),
                        self.total_so_far(),
                        self.column_widths(),
                        total_name(self.options()),
                    ),
                )
            } else {
                None
            },
            totals(self.counted_so_far(), self.total_so_far()),
    {
        let nfiles: usize = self.opts.files.len();
        let printed: bool = match self.opts.total_mode {
            TotalMode::Never => false,
            TotalMode::Always => true,
            TotalMode::Only => true,
            TotalMode::Auto => nfiles > 1,
        };
        if !printed {
            return None;
        }
        let name: Option<&str> = if self.opts.total_mode == TotalMode::Only {
            None
        } else {
            Some("total")
        };
        Some(write_counts(&self.opts, &self.total, &self.widths, name))
    }

    /// Did everything go well?
    pub fn is_ok(&self) -> (r: bool)
        ensures
            r == self.went_well(),
    {
        self.ok
    }
}

/// What is said of a list of names that could not be read.
pub fn list_error(list: &str, error: &str) -> (r: String)
    ensures
        r@ == "wc: cannot open '"@ + list@ + "' for reading: "@ + error@,
{
    let mut s: String = String::new();
    s.append("wc: cannot open '");
    s.append(list);
    s.append("' for reading: ");
    s.append(error);
    assert(s@ =~= "wc: cannot open '"@ + list@ + "' for reading: "@ + error@);
    s
}

} // verus!
