//! The help page and the version line.
use clihelp::{HelpPage, Row, Section};
use vstd::prelude::*;
use vstd::string::*;

verus! {

/// A line of the help page: an option, what stands for its value if it has
/// one, and what it does.
pub struct HelpRow {
    pub short: &'static str,
    pub long: &'static str,
    pub placeholder: Option<&'static str>,
    pub desc: &'static str,
}

/// A group of lines under a title.
pub struct HelpSection {
    pub title: &'static str,
    pub rows: Vec<HelpRow>,
}

/// All that the help page says.
pub struct HelpText {
    pub name_line: &'static str,
    pub usage: Vec<&'static str>,
    pub blurb: &'static str,
    pub sections: Vec<HelpSection>,
}

/// The texts of a line: the short and the long option, the placeholder and the
/// description.
pub open spec fn row_texts(r: HelpRow) -> (Seq<char>, Seq<char>, Option<Seq<char>>, Seq<char>) {
    (
        r.short@,
        r.long@,
        match r.placeholder {
            Some(p) => Some(p@),
            None => None,
        },
        r.desc@,
    )
}

/// The texts of each line.
pub open spec fn rows_texts(rows: Seq<HelpRow>) -> Seq<
    (Seq<char>, Seq<char>, Option<Seq<char>>, Seq<char>),
> {
    Seq::new(rows.len(), |i: int| row_texts(rows[i]))
}

/// The title and the lines of each section.
pub open spec fn section_texts(sections: Seq<HelpSection>) -> Seq<
    (Seq<char>, Seq<(Seq<char>, Seq<char>, Option<Seq<char>>, Seq<char>)>),
> {
    Seq::new(
        sections.len(),
        |i: int| (sections[i].title@, rows_texts(sections[i].rows@)),
    )
}

/// Each usage line.
pub open spec fn usage_texts(usage: Seq<&'static str>) -> Seq<Seq<char>> {
    Seq::new(usage.len(), |i: int| usage[i]@)
}

/// What `clihelp` lays out, with colours if `color`: a name line, usage lines,
/// a blurb, and sections of a title and lines without a note.
pub uninterp spec fn laid_out(
    name_line: Seq<char>,
    usage: Seq<Seq<char>>,
    blurb: Seq<char>,
    sections: Seq<(Seq<char>, Seq<(Seq<char>, Seq<char>, Option<Seq<char>>, Seq<char>)>)>,
    color: bool,
) -> Seq<char>;

/// `clihelp::HelpPage::render`, on a page that is built of the given texts by
/// `HelpPage::new`, `usage`, `blurb` and `section`. The page is a function of
/// those texts and of `color`; how it is laid out is left to `clihelp`.
#[verifier::external_body]
fn render(text: &HelpText, color: bool) -> (r: String)
    ensures
        r@ == laid_out(
            text.name_line@,
            usage_texts(text.usage@),
            text.blurb@,
            section_texts(text.sections@),
            color,
        ),
{
    let mut page = HelpPage::new(text.name_line).blurb(text.blurb);
    for line in &text.usage {
        page = page.usage(*line);
    }
    for s in &text.sections {
        let rows = s.rows.iter().map(|r| Row {
            short: r.short,
            long: r.long,
            placeholder: r.placeholder,
            desc: r.desc,
        });
        page = page.section(Section { title: s.title, note: None, rows: rows.collect() });
    }
    page.render(color)
}

/// A line without a value.
fn row(short: &'static str, long: &'static str, desc: &'static str) -> (r: HelpRow)
    ensures
        row_texts(r) == (short@, long@, None::<Seq<char>>, desc@),
{
    HelpRow { short, long, placeholder: None, desc }
}

/// A line with a value.
fn row_val(
    short: &'static str,
    long: &'static str,
    placeholder: &'static str,
    desc: &'static str,
) -> (r: HelpRow)
    ensures
        row_texts(r) == (short@, long@, Some(placeholder@), desc@),
{
    HelpRow { short, long, placeholder: Some(placeholder), desc }
}

/// What the lines on the output say.
pub open spec fn output_format_texts() -> Seq<
    (Seq<char>, Seq<char>, Option<Seq<char>>, Seq<char>),
> {
    seq![
        (""@, "(default)"@, None, "canonical lines, words, and bytes"@),
        ("-l"@, "--lines"@, None, "print the newline counts"@),
        ("-w"@, "--words"@, None, "print the word counts"@),
        ("-c"@, "--bytes"@, None, "print the byte counts"@),
        ("-m"@, "--chars"@, None, "print the character counts"@),
        ("-L"@, "--max-line-length"@, None, "print the maximum display width"@),
    ]
}

/// The lines on the output.
pub fn output_format_rows() -> (rows: Vec<HelpRow>)
    ensures
        rows_texts(rows@) == output_format_texts(),
{
    let mut rows: Vec<HelpRow> = Vec::new();
    rows.push(row("", "(default)", "canonical lines, words, and bytes"));
    rows.push(row("-l", "--lines", "print the newline counts"));
    rows.push(row("-w", "--words", "print the word counts"));
    rows.push(row("-c", "--bytes", "print the byte counts"));
    rows.push(row("-m", "--chars", "print the character counts"));
    rows.push(row("-L", "--max-line-length", "print the maximum display width"));
    assert(rows_texts(rows@) =~= output_format_texts());
    rows
}

/// What the lines on totals and files say.
pub open spec fn total_files_texts() -> Seq<
    (Seq<char>, Seq<char>, Option<Seq<char>>, Seq<char>),
> {
    seq![
        (""@, "--total"@, Some("<WHEN>"@), "when to print a line with total counts"@),
        (""@, "--files0-from"@, Some("<F>"@), "read input from the files specified by"@),
    ]
}

/// The lines on totals and files.
pub fn total_files_rows() -> (rows: Vec<HelpRow>)
    ensures
        rows_texts(rows@) == total_files_texts(),
{
    let mut rows: Vec<HelpRow> = Vec::new();
    rows.push(row_val("", "--total", "<WHEN>", "when to print a line with total counts"));
    rows.push(row_val("", "--files0-from", "<F>", "read input from the files specified by"));
    assert(rows_texts(rows@) =~= total_files_texts());
    rows
}

/// What the other lines say.
pub open spec fn misc_texts() -> Seq<(Seq<char>, Seq<char>, Option<Seq<char>>, Seq<char>)> {
    seq![
        (""@, "--debug"@, None, "indicate what line count acceleration is used"@),
        (""@, "--help"@, None, "show this help"@),
        (""@, "--version"@, None, "show version"@),
    ]
}

/// The other lines.
pub fn misc_rows() -> (rows: Vec<HelpRow>)
    ensures
        rows_texts(rows@) == misc_texts(),
{
    let mut rows: Vec<HelpRow> = Vec::new();
    rows.push(row("", "--debug", "indicate what line count acceleration is used"));
    rows.push(row("", "--help", "show this help"));
    rows.push(row("", "--version", "show version"));
    assert(rows_texts(rows@) =~= misc_texts());
    rows
}

/// What the sections say.
pub open spec fn all_sections() -> Seq<
    (Seq<char>, Seq<(Seq<char>, Seq<char>, Option<Seq<char>>, Seq<char>)>),
> {
    seq![
        ("OUTPUT FORMAT"@, output_format_texts()),
        ("TOTAL & FILES"@, total_files_texts()),
        ("MISC"@, misc_texts()),
    ]
}

/// The sections of the help page.
pub fn sections() -> (r: Vec<HelpSection>)
    ensures
        section_texts(r@) == all_sections(),
{
    let mut r: Vec<HelpSection> = Vec::new();
    r.push(HelpSection { title: "OUTPUT FORMAT", rows: output_format_rows() });
    r.push(HelpSection { title: "TOTAL & FILES", rows: total_files_rows() });
    r.push(HelpSection { title: "MISC", rows: misc_rows() });
    assert(section_texts(r@) =~= all_sections());
    r
}

/// The usage lines.
pub open spec fn all_usage() -> Seq<Seq<char>> {
    seq![
        "fastwc [OPTION]... [FILE]..."@,
        "fastwc [OPTION]... --files0-from=F"@,
        "fastwc [OPTION]... -          read from stdin explicitly"@,
    ]
}

/// The help page, with colours if `on`.
pub fn help_page(on: bool) -> (r: String)
    ensures
        r@ == laid_out(
            "fastwc 0.1.0 - a high-performance, GNU-compatible wc reimplementation"@,
            all_usage(),
            "Print newline, word, and byte counts for each FILE, and a total line if\nmore than one FILE is specified. A word is a nonempty sequence of non-white\nspace characters delimited by whitespace or by start/end of input.\n\nWith no FILE, or when FILE is -, read standard input."@,
            all_sections(),
            on,
        ),
{
    let mut usage: Vec<&'static str> = Vec::new();
    usage.push("fastwc [OPTION]... [FILE]...");
    usage.push("fastwc [OPTION]... --files0-from=F");
    usage.push("fastwc [OPTION]... -          read from stdin explicitly");
    assert(usage_texts(usage@) =~= all_usage());
    let text = HelpText {
        name_line: "fastwc 0.1.0 - a high-performance, GNU-compatible wc reimplementation",
        usage,
        blurb:
            "Print newline, word, and byte counts for each FILE, and a total line if\nmore than one FILE is specified. A word is a nonempty sequence of non-white\nspace characters delimited by whitespace or by start/end of input.\n\nWith no FILE, or when FILE is -, read standard input.",
        sections: sections(),
    };
    render(&text, on)
}

/// The version line, with colours if `on`.
pub open spec fn version_text(on: bool) -> Seq<char> {
    if on {
        "\x1b[1m\x1b[36mfastwc\x1b[0m 0.1.0 \x1b[1m(GNU wc compatible)\x1b[0m"@
    } else {
        "fastwc 0.1.0 (GNU wc compatible)"@
    }
}

/// The version line, with colours if `on`.
pub fn version_line(on: bool) -> (r: String)
    ensures
        r@ == version_text(on),
{
    if on {
        "\x1b[1m\x1b[36mfastwc\x1b[0m 0.1.0 \x1b[1m(GNU wc compatible)\x1b[0m".to_owned()
    } else {
        "fastwc 0.1.0 (GNU wc compatible)".to_owned()
    }
}

} // verus!
