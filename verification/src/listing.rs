//! The `list` table: one entry per runbook file.

use vstd::prelude::*;
use crate::text::{
    chars_of, decimal, extend_chars, line_seq, padded, push_cell, repeat_char, repeated,
    string_of, string_views, to_decimal,
};
use crate::skill::pair_views;
use crate::runbook::{line_count, runbook_title, title_of};
use crate::audit::{is_referenced, references_file};

verus! {

/// What `list` shows of a runbook file.
pub struct RunbookEntry {
    pub filename: String,
    pub title: String,
    pub line_count: usize,
    /// Whether SKILL.md references the file.
    pub referenced: bool,
}

/// The entry for runbook file `filename` with content `content`, given the
/// references of SKILL.md (none when there is no SKILL.md).
pub fn list_entry(filename: &str, content: &str, refs: &Vec<(String, String)>) -> (e: RunbookEntry)
    ensures
        e.filename@ == filename@,
        e.title@ == title_of(content@),
        e.line_count == line_seq(content@).len(),
        e.referenced == is_referenced(pair_views(refs@), filename@),
{
    RunbookEntry {
        filename: string_of(&chars_of(filename)),
        title: runbook_title(content),
        line_count: line_count(content),
        referenced: references_file(refs, filename),
    }
}

/// A line of the `list` table: file name in 30 columns, title in 40, line
/// count in 6, then the reference mark.
pub open spec fn list_line(
    filename: Seq<char>,
    title: Seq<char>,
    count: Seq<char>,
    mark: Seq<char>,
) -> Seq<char> {
    padded(filename, 30) + seq![' '] + padded(title, 40) + seq![' '] + padded(count, 6) + seq![' ']
        + mark
}

/// The line for an entry: `yes` or `no` for whether it is referenced.
pub open spec fn entry_line(e: RunbookEntry) -> Seq<char> {
    list_line(
        e.filename@,
        e.title@,
        decimal(e.line_count as nat),
        if e.referenced {
            "yes"@
        } else {
            "no"@
        },
    )
}

/// The lines `list` prints without `--json`: a header, a rule of 85 dashes,
/// and one line per entry.
pub open spec fn list_table(entries: Seq<RunbookEntry>) -> Seq<Seq<char>> {
    seq![list_line("FILENAME"@, "TITLE"@, "LINES"@, "REF"@), repeated('-', 85)]
        + entries.map_values(|e: RunbookEntry| entry_line(e))
}

fn list_line_chars(filename: &str, title: &str, count: &Vec<char>, mark: &str) -> (r: String)
    ensures
        r@ == list_line(filename@, title@, count@, mark@),
{
    let mut line: Vec<char> = Vec::new();
    push_cell(&mut line, &chars_of(filename), 30);
    push_cell(&mut line, &chars_of(title), 40);
    push_cell(&mut line, count, 6);
    extend_chars(&mut line, &chars_of(mark));
    assert(line@ =~= list_line(filename@, title@, count@, mark@));
    string_of(&line)
}

/// The lines to print for `entries`.
pub fn list_lines(entries: &Vec<RunbookEntry>) -> (r: Vec<String>)
    ensures
        string_views(r@) == list_table(entries@),
{
    let mut r: Vec<String> = Vec::new();
    r.push(list_line_chars("FILENAME", "TITLE", &chars_of("LINES"), "REF"));
    r.push(string_of(&repeat_char('-', 85)));
    let ghost head = string_views(r@);
    let ghost lines = entries@.map_values(|e: RunbookEntry| entry_line(e));
    for i in 0..entries.len()
        invariant
            head == seq![list_line("FILENAME"@, "TITLE"@, "LINES"@, "REF"@), repeated('-', 85)],
            lines == entries@.map_values(|e: RunbookEntry| entry_line(e)),
            string_views(r@) == head + lines.take(i as int),
    {
        let e = &entries[i];
        let count = to_decimal(e.line_count);
        let mark = if e.referenced {
            "yes"
        } else {
            "no"
        };
        let ghost old_r = r@;
        r.push(list_line_chars(e.filename.as_str(), e.title.as_str(), &count, mark));
        assert(string_views(r@) =~= string_views(old_r).push(lines[i as int]));
        assert(lines.take(i + 1) =~= lines.take(i as int).push(lines[i as int]));
    }
    assert(lines.take(entries.len() as int) == lines);
    assert(string_views(r@) =~= list_table(entries@));
    r
}

} // verus!
