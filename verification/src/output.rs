//! The rows of a listing.
//!
//! A listing is a heading and, for each entry, an empty row, a row with the
//! date, the first line of the text and the tags, and a row for each further
//! line of the text. Laying the text out in lines, and writing the date for
//! the reader's time zone, is left to the caller: this module puts the rows
//! together, and takes the indentation off the first line, through
//! `textwrap`.

use crate::cli::Cli;
use crate::entry::Entry;
use crate::text::push_char;
use vstd::prelude::*;
use vstd::string::*;

verus! {

/// An entry made ready for a listing.
#[derive(Clone, Debug, PartialEq, Eq)]
pub struct Shown {
    /// The entry.
    pub entry: Entry,
    /// Its date, as it is to be shown.
    pub date: String,
    /// Its text, laid out in lines.
    pub lines: Vec<String>,
}

/// What `textwrap::dedent` makes of a text: the text without the white space
/// that all its lines begin with.
pub uninterp spec fn dedented(text: Seq<char>) -> Seq<char>;

/// What stands for the first of the lines of an entry in a listing: the
/// line without its indentation.
pub open spec fn lead_of(lines: Seq<Seq<char>>) -> Seq<char> {
    if lines.len() == 0 {
        Seq::empty()
    } else {
        dedented(lines[0])
    }
}

/// The escape sequence that ends bold and underlined print.
pub open spec fn reset() -> Seq<char> {
    seq!['\x1b', '[', '0', 'm']
}

/// The escape sequence that begins bold print.
pub open spec fn bold() -> Seq<char> {
    seq!['\x1b', '[', '1', 'm']
}

/// The escape sequence that begins underlined print.
pub open spec fn underline() -> Seq<char> {
    seq!['\x1b', '[', '4', 'm']
}

/// A label of the heading: bold and underlined.
pub open spec fn label(name: Seq<char>) -> Seq<char> {
    bold() + underline() + name + reset()
}

/// `n` spaces.
pub open spec fn spaces(n: nat) -> Seq<char> {
    Seq::new(n, |i: int| ' ')
}

/// The heading of a listing: the labels `DateTime` and `Text`, 17 spaces
/// apart, and 52 spaces further the label `Tags`, where tags are shown.
pub open spec fn heading(with_tags: bool) -> Seq<char> {
    label("DateTime"@) + spaces(17) + label("Text"@) + if with_tags {
        spaces(52) + label("Tags"@)
    } else {
        Seq::empty()
    }
}

/// Strings with `gap` between them.
pub open spec fn joined(items: Seq<Seq<char>>, gap: Seq<char>) -> Seq<char>
    decreases items.len(),
{
    if items.len() == 0 {
        Seq::empty()
    } else if items.len() == 1 {
        items[0]
    } else {
        joined(items.drop_last(), gap) + gap + items.last()
    }
}

/// What a row shows of the tags: a space, and the tags with a space between
/// them, where tags are shown; nothing where they are not.
pub open spec fn tag_column(tags: Seq<Seq<char>>, shown: bool) -> Seq<char> {
    if shown {
        seq![' '] + joined(tags, seq![' '])
    } else {
        Seq::empty()
    }
}

/// The first row of an entry: the date in bold, a tab and two spaces, the
/// first line of the text, and the tags.
pub open spec fn first_row(
    date: Seq<char>,
    lead: Seq<char>,
    tags: Seq<Seq<char>>,
    shown: bool,
) -> Seq<char> {
    bold() + date + reset() + seq!['\t', ' ', ' '] + lead + tag_column(tags, shown)
}

/// The rows of an entry whose text was laid out in `lines`: an empty row,
/// the first row, made with `lead` in place of the first line, and the
/// lines from the second on as they are. No rows where there are no lines.
pub open spec fn rows_of(
    date: Seq<char>,
    lead: Seq<char>,
    lines: Seq<Seq<char>>,
    tags: Seq<Seq<char>>,
    shown: bool,
) -> Seq<Seq<char>> {
    if lines.len() == 0 {
        Seq::empty()
    } else {
        seq![Seq::empty(), first_row(date, lead, tags, shown)] + lines.skip(1)
    }
}

/// The rows of the entries of a listing, one entry after the other.
pub open spec fn rows_of_all(entries: Seq<Shown>, with_tags: bool) -> Seq<Seq<char>>
    decreases entries.len(),
{
    if entries.len() == 0 {
        Seq::empty()
    } else {
        rows_of_all(entries.drop_last(), with_tags) + rows_of(
            entries.last().date@,
            lead_of(entries.last().lines.deep_view()),
            entries.last().lines.deep_view(),
            entries.last().entry@.tags(),
            with_tags,
        )
    }
}

/// The rows of a listing: the heading, and the rows of the entries.
pub open spec fn listing(entries: Seq<Shown>, with_tags: bool) -> Seq<Seq<char>> {
    seq![heading(with_tags)] + rows_of_all(entries, with_tags)
}

/// `textwrap::dedent`: the text without the white space that all its lines
/// begin with. What comes back depends on the text alone.
#[verifier::external_body]
pub(crate) fn dedent(text: &str) -> (r: String)
    ensures
        r@ == dedented(text@),
{
    textwrap::dedent(text)
}

/// Appends `n` spaces to `out`.
fn push_spaces(out: &mut String, n: usize)
    ensures
        final(out)@ == old(out)@ + spaces(n as nat),
{
    let ghost before = out@;
    let mut i: usize = 0;
    while i < n
        invariant
            i <= n,
            out@ == before + spaces(i as nat),
        decreases n - i,
    {
        push_char(out, ' ');
        i += 1;
    }
}

/// Appends the label `name` to `out`.
fn push_label(out: &mut String, name: &str)
    ensures
        final(out)@ == old(out)@ + label(name@),
{
    proof {
        reveal_strlit("\x1b[1m");
        reveal_strlit("\x1b[4m");
        reveal_strlit("\x1b[0m");
    }
    out.append("\x1b[1m");
    out.append("\x1b[4m");
    out.append(name);
    out.append("\x1b[0m");
}

/// The heading of the listing that `cli` asks for.
pub fn heading_text(cli: &Cli) -> (r: String)
    ensures
        r@ == heading(cli.tags),
{
    let mut out = String::new();
    push_label(&mut out, "DateTime");
    push_spaces(&mut out, 17);
    push_label(&mut out, "Text");
    if cli.tags {
        push_spaces(&mut out, 52);
        push_label(&mut out, "Tags");
    }
    out
}

/// Appends to `out` what a row shows of `tags`.
fn push_tag_column(out: &mut String, tags: &Vec<String>, shown: bool)
    ensures
        final(out)@ == old(out)@ + tag_column(tags.deep_view(), shown),
{
    let ghost before = out@;
    let ghost items = tags.deep_view();
    if !shown {
        return ;
    }
    push_char(out, ' ');
    let mut i: usize = 0;
    while i < tags.len()
        invariant
            i <= tags.len(),
            items == tags.deep_view(),
            out@ == before + seq![' '] + joined(items.take(i as int), seq![' ']),
        decreases tags.len() - i,
    {
        if i > 0 {
            push_char(out, ' ');
        }
        out.append(tags[i].as_str());
        proof {
            let done = items.take(i as int);
            let next = items.take(i + 1);
            assert(next.drop_last() =~= done);
        }
        i += 1;
    }
    assert(items.take(tags.len() as int) =~= items);
}

/// Appends to `out` the rows that a listing shows of `entry`, where `date`
/// is the date as it is to be shown, `lines` the text laid out in lines, and
/// `lead` what is to stand for the first of the lines.
pub(crate) fn push_entry_rows(
    out: &mut Vec<String>,
    cli: &Cli,
    entry: &Entry,
    date: &str,
    lead: &str,
    lines: &Vec<String>,
)
    ensures
        final(out).deep_view() == old(out).deep_view() + rows_of(
            date@,
            lead@,
            lines.deep_view(),
            entry@.tags(),
            cli.tags,
        ),
{
    let ghost before = out.deep_view();
    let ghost wanted = rows_of(date@, lead@, lines.deep_view(), entry@.tags(), cli.tags);
    if lines.len() == 0 {
        return ;
    }
    let mut first = String::new();
    proof {
        reveal_strlit("\x1b[1m");
        reveal_strlit("\x1b[0m");
        reveal_strlit("\t  ");
    }
    first.append("\x1b[1m");
    first.append(date);
    first.append("\x1b[0m");
    first.append("\t  ");
    first.append(lead);
    push_tag_column(&mut first, entry.tags(), cli.tags);
    assert(first@ =~= first_row(date@, lead@, entry@.tags(), cli.tags));
    out.push(String::new());
    out.push(first);
    let mut i: usize = 1;
    while i < lines.len()
        invariant
            1 <= i <= lines.len(),
            wanted == rows_of(date@, lead@, lines.deep_view(), entry@.tags(), cli.tags),
            out.deep_view() == before + wanted.take(i + 1),
        decreases lines.len() - i,
    {
        let ghost so_far = out.deep_view();
        out.push(lines[i].clone());
        assert(out.deep_view() =~= so_far.push(lines@[i as int]@));
        i += 1;
    }
}

/// The rows that a listing shows of `entry`, where `date` is the date as it
/// is to be shown, `lines` the text laid out in lines, and `lead` what is
/// to stand for the first of the lines.
pub fn entry_rows(cli: &Cli, entry: &Entry, date: &str, lead: &str, lines: &Vec<String>) -> (rows:
    Vec<String>)
    ensures
        rows.deep_view() == rows_of(date@, lead@, lines.deep_view(), entry@.tags(), cli.tags),
{
    let mut rows: Vec<String> = Vec::new();
    push_entry_rows(&mut rows, cli, entry, date, lead, lines);
    rows
}

/// Prints the listing of `entries` into `out`, a row to a string: the
/// heading, and the rows of each entry in turn, the first line of each
/// without its indentation.
pub fn print_entries(entries: &Vec<Shown>, cli: &Cli, out: &mut Vec<String>)
    ensures
        final(out).deep_view() == old(out).deep_view() + listing(entries@, cli.tags),
{
    let ghost before = out.deep_view();
    out.push(heading_text(cli));
    let mut i: usize = 0;
    while i < entries.len()
        invariant
            i <= entries.len(),
            out.deep_view() == before + listing(entries@.take(i as int), cli.tags),
        decreases entries.len() - i,
    {
        let shown = &entries[i];
        let lead = if shown.lines.len() == 0 {
            String::new()
        } else {
            dedent(shown.lines[0].as_str())
        };
        push_entry_rows(out, cli, &shown.entry, shown.date.as_str(), lead.as_str(), &shown.lines);
        proof {
            let done = entries@.take(i as int);
            let next = entries@.take(i + 1);
            assert(next.drop_last() =~= done);
        }
        i += 1;
    }
    assert(entries@.take(entries.len() as int) =~= entries@);
}

} // verus!
