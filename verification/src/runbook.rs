//! Reading a runbook file: its title, its size, and the checks `validate` makes.

use vstd::prelude::*;
use crate::harness::{
    append_strings, harness_check, harness_warnings, lemma_steps_after_heading,
    missing_term_warnings, ontology_check,
    step_labels, step_numbers, terms_of_lines,
};
use crate::text::{
    chars_of, extend_chars, find, first_match, has_prefix, lemma_first_match_from, line_seq,
    lemma_line_seq_after_newline, lemma_line_seq_single, lemma_trimmed_without_cr, without_cr,
    occurs_at, same_chars, slice_chars, split_lines, starts_with, string_of, trim, trimmed,
    string_views, utf8_len, utf8_len_exceeds, views, prefixed, push_prefixed,
};

verus! {

// ---------------------------------------------------------------------------
// Links
// ---------------------------------------------------------------------------

/// The file part of a link: what comes before its first `#`.
pub open spec fn link_file(link: Seq<char>) -> Seq<char> {
    match first_match(link, seq!['#']) {
        Some(i) => link.take(i),
        None => link,
    }
}

/// Whether a link is one whose file must exist: not `http...`, not an anchor
/// `#...`, not empty, and with a non-empty file part.
pub open spec fn link_is_checked(link: Seq<char>) -> bool {
    &&& !has_prefix(link, "http"@)
    &&& !has_prefix(link, seq!['#'])
    &&& link.len() > 0
    &&& link_file(link).len() > 0
}

/// The checked links of a line, in order: for each `](`, the text up to the
/// next `)`; the search goes on from that `)`, and stops at a `](` with no `)`
/// after it.
pub open spec fn line_links(search: Seq<char>) -> Seq<Seq<char>>
    decreases search.len(),
{
    match first_match(search, seq![']', '(']) {
        None => seq![],
        Some(i) => {
            let rest = search.skip(i + 2);
            match first_match(rest, seq![')']) {
                None => seq![],
                Some(end) => {
                    proof {
                        lemma_first_match_from(search, seq![']', '('], 0);
                        lemma_first_match_from(rest, seq![')'], 0);
                        assert(occurs_at(search, seq![']', '('], i));
                        assert(occurs_at(rest, seq![')'], end));
                    }
                    let link = rest.take(end);
                    let tail = line_links(rest.skip(end));
                    if link_is_checked(link) {
                        seq![link] + tail
                    } else {
                        tail
                    }
                },
            }
        },
    }
}

/// The checked links of all `lines`, in order.
pub open spec fn links_of_lines(lines: Seq<Seq<char>>) -> Seq<Seq<char>>
    decreases lines.len(),
{
    if lines.len() == 0 {
        seq![]
    } else {
        line_links(lines[0]) + links_of_lines(lines.drop_first())
    }
}

/// The checked links of a runbook's content.
pub open spec fn runbook_links(content: Seq<char>) -> Seq<Seq<char>> {
    links_of_lines(line_seq(content))
}

} // verus!

verus! {

fn link_file_of(link: &Vec<char>) -> (r: Vec<char>)
    ensures
        r@ == link_file(link@),
{
    let mut hash: Vec<char> = Vec::new();
    hash.push('#');
    assert(hash@ == seq!['#']);
    match find(link, &hash) {
        Some(i) => {
            proof {
                lemma_first_match_from(link@, hash@, 0);
                assert(occurs_at(link@, hash@, i as int));
            }
            slice_chars(link, 0, i)
        },
        None => {
            let r = slice_chars(link, 0, link.len());
            assert(link@.subrange(0, link@.len() as int) == link@);
            r
        },
    }
}

fn is_checked_link(link: &Vec<char>) -> (b: bool)
    ensures
        b == link_is_checked(link@),
{
    let mut hash: Vec<char> = Vec::new();
    hash.push('#');
    assert(hash@ == seq!['#']);
    !starts_with(link, &chars_of("http")) && !starts_with(link, &hash) && link.len() > 0
        && link_file_of(link).len() > 0
}

fn links_in_line(line: &Vec<char>) -> (r: Vec<Vec<char>>)
    ensures
        views(r@) == line_links(line@),
{
    let mut open: Vec<char> = Vec::new();
    open.push(']');
    open.push('(');
    assert(open@ == seq![']', '(']);
    let mut close: Vec<char> = Vec::new();
    close.push(')');
    assert(close@ == seq![')']);
    let mut out: Vec<Vec<char>> = Vec::new();
    let mut search = line.clone();
    assert(search@ =~= line@);
    loop
        invariant
            open@ == seq![']', '('],
            close@ == seq![')'],
            line_links(line@) == views(out@) + line_links(search@),
        ensures
            views(out@) == line_links(line@),
        decreases search.len(),
    {
        match find(&search, &open) {
            None => {
                assert(views(out@) + Seq::<Seq<char>>::empty() == views(out@));
                break;
            },
            Some(i) => {
                proof {
                    lemma_first_match_from(search@, open@, 0);
                    assert(occurs_at(search@, open@, i as int));
                    assert(search@.len() == search.len());
                }
                let rest = slice_chars(&search, i + 2, search.len());
                assert(rest@ == search@.skip(i + 2));
                match find(&rest, &close) {
                    None => {
                        assert(views(out@) + Seq::<Seq<char>>::empty() == views(out@));
                        break;
                    },
                    Some(end) => {
                        proof {
                            lemma_first_match_from(rest@, close@, 0);
                            assert(occurs_at(rest@, close@, end as int));
                        }
                        let link = slice_chars(&rest, 0, end);
                        assert(link@ == rest@.take(end as int));
                        let next = slice_chars(&rest, end, rest.len());
                        assert(next@ == rest@.skip(end as int));
                        let ghost before = views(out@);
                        let ghost tail = line_links(next@);
                        if is_checked_link(&link) {
                            let ghost l = link@;
                            out.push(link);
                            assert(views(out@) =~= before.push(l));
                            assert(before + (seq![l] + tail) =~= before.push(l) + tail);
                        }
                        search = next;
                    },
                }
            },
        }
    }
    out
}

/// A link of a runbook whose file is checked for existence: the link as
/// written and its file part.
pub struct LinkTarget {
    pub link: String,
    pub file: String,
}

/// The links held by a sequence of link targets.
pub open spec fn target_links(r: Seq<LinkTarget>) -> Seq<Seq<char>> {
    r.map_values(|t: LinkTarget| t.link@)
}

fn push_targets(r: &mut Vec<LinkTarget>, found: &Vec<Vec<char>>)
    requires
        forall|k: int| 0 <= k < old(r)@.len() ==> #[trigger] old(r)@[k].file@ == link_file(old(r)@[k].link@),
    ensures
        target_links(final(r)@) == target_links(old(r)@) + views(found@),
        forall|k: int| 0 <= k < final(r)@.len() ==> #[trigger] final(r)@[k].file@ == link_file(final(r)@[k].link@),
{
    let ghost before = target_links(r@);
    for j in 0..found.len()
        invariant
            target_links(r@) == before + views(found@).take(j as int),
            forall|k: int| 0 <= k < r@.len() ==> #[trigger] r@[k].file@ == link_file(r@[k].link@),
    {
        let file = link_file_of(&found[j]);
        let ghost old_r = r@;
        r.push(LinkTarget { link: string_of(&found[j]), file: string_of(&file) });
        assert(target_links(r@) =~= target_links(old_r).push(found@[j as int]@));
        assert(views(found@).take(j + 1) =~= views(found@).take(j as int).push(found@[j as int]@));
    }
    assert(views(found@).take(found.len() as int) == views(found@));
}

/// The links of a runbook whose files `validate` checks, in the order of the
/// lines and, within a line, from left to right, each with its file part.
pub fn link_targets(content: &str) -> (r: Vec<LinkTarget>)
    ensures
        target_links(r@) == runbook_links(content@),
        forall|i: int| 0 <= i < r@.len() ==> #[trigger] r@[i].file@ == link_file(r@[i].link@),
{
    let text = chars_of(content);
    let lines = split_lines(&text);
    let mut r: Vec<LinkTarget> = Vec::new();
    assert(views(lines@).skip(0) == views(lines@));
    for i in 0..lines.len()
        invariant
            views(lines@) == line_seq(content@),
            runbook_links(content@) == target_links(r@) + links_of_lines(views(lines@).skip(i as int)),
            forall|k: int| 0 <= k < r@.len() ==> #[trigger] r@[k].file@ == link_file(r@[k].link@),
    {
        let ghost rest = views(lines@).skip(i as int);
        assert(rest[0] == lines@[i as int]@);
        assert(rest.drop_first() == views(lines@).skip(i + 1));
        let found = links_in_line(&lines[i]);
        assert(links_of_lines(rest) == views(found@) + links_of_lines(rest.drop_first()));
        push_targets(&mut r, &found);
        assert(runbook_links(content@) =~= target_links(r@) + links_of_lines(views(lines@).skip(i + 1)));
    }
    assert(views(lines@).skip(lines.len() as int) =~= Seq::<Seq<char>>::empty());
    assert(target_links(r@) + Seq::<Seq<char>>::empty() == target_links(r@));
    r
}

} // verus!

verus! {

// ---------------------------------------------------------------------------
// Validation
// ---------------------------------------------------------------------------

pub open spec fn is_title_line(line: Seq<char>) -> bool {
    has_prefix(line, "# "@)
}

pub open spec fn is_steps_heading(line: Seq<char>) -> bool {
    trimmed(line) == "## Steps"@
}

/// A numbered step: a trimmed line of more than two bytes that starts with an
/// ASCII digit and holds `. `.
pub open spec fn is_numbered_step(line: Seq<char>) -> bool {
    let t = trimmed(line);
    &&& utf8_len(t) > 2
    &&& t.len() > 0
    &&& '0' <= t[0] && t[0] <= '9'
    &&& first_match(t, ". "@) is Some
}

pub open spec fn has_title(content: Seq<char>) -> bool {
    exists|i: int| 0 <= i < line_seq(content).len() && is_title_line(#[trigger] line_seq(content)[i])
}

pub open spec fn has_steps_section(content: Seq<char>) -> bool {
    exists|i: int|
        0 <= i < line_seq(content).len() && is_steps_heading(#[trigger] line_seq(content)[i])
}

/// Whether a `## Steps` section holds a numbered step.
pub open spec fn has_numbered_steps(content: Seq<char>) -> bool {
    step_labels(line_seq(content), Seq::<char>::empty()).len() > 0
}

pub open spec fn missing_title_message() -> Seq<char> {
    "Missing title (no `# ...` heading found)"@
}

pub open spec fn missing_steps_message() -> Seq<char> {
    "No `## Steps` section found"@
}

pub open spec fn missing_numbered_message() -> Seq<char> {
    "No numbered steps found"@
}

/// `Broken link: <link>` for each link whose file does not exist, in order.
pub open spec fn broken_link_errors(links: Seq<Seq<char>>, exists: Seq<bool>) -> Seq<Seq<char>>
    decreases links.len(),
{
    if links.len() == 0 {
        seq![]
    } else {
        let first: Seq<Seq<char>> = if exists[0] {
            seq![]
        } else {
            seq!["Broken link: "@ + links[0]]
        };
        first + broken_link_errors(links.drop_first(), exists.drop_first())
    }
}

/// The errors of a runbook, given for each of its checked links whether its
/// file exists: a missing title, then each broken link.
pub open spec fn validation_errors(content: Seq<char>, exists: Seq<bool>) -> Seq<Seq<char>> {
    let title: Seq<Seq<char>> = if has_title(content) {
        seq![]
    } else {
        seq![missing_title_message()]
    };
    title + broken_link_errors(runbook_links(content), exists)
}

/// The warnings of a runbook: no `## Steps` section; no numbered step inside
/// one; each module harness finding (a `## Spec` entry that names no step, an
/// `## Evals` name that is not snake_case), in the order of the lines; and,
/// when the files of an ontology directory are given, each term annotation
/// whose term has no file there.
pub open spec fn validation_warnings(
    content: Seq<char>,
    ontology: Option<Seq<Seq<char>>>,
) -> Seq<Seq<char>> {
    let steps: Seq<Seq<char>> = if has_steps_section(content) {
        seq![]
    } else {
        seq![missing_steps_message()]
    };
    let numbered: Seq<Seq<char>> = if has_numbered_steps(content) {
        seq![]
    } else {
        seq![missing_numbered_message()]
    };
    let lines = line_seq(content);
    let harness = harness_warnings(lines, Seq::<char>::empty(), step_labels(lines, Seq::<char>::empty()));
    let terms: Seq<Seq<char>> = match ontology {
        Some(files) => missing_term_warnings(terms_of_lines(lines), files),
        None => seq![],
    };
    steps + numbered + harness + terms
}

/// The file names of an optional ontology directory as plain values.
pub open spec fn ontology_view(files: Option<Vec<String>>) -> Option<Seq<Seq<char>>> {
    match files {
        Some(v) => Some(string_views(v@)),
        None => None,
    }
}

/// What `validate` found in a runbook.
pub struct ValidationReport {
    pub errors: Vec<String>,
    pub warnings: Vec<String>,
}

impl ValidationReport {
    /// Whether the runbook fails validation: warnings do not count.
    pub fn has_errors(&self) -> (b: bool)
        ensures
            b == (self.errors@.len() > 0),
    {
        self.errors.len() > 0
    }
}

fn title_line_found(lines: &Vec<Vec<char>>) -> (b: bool)
    ensures
        b == exists|i: int| 0 <= i < lines@.len() && is_title_line(#[trigger] views(lines@)[i]),
{
    let marker = chars_of("# ");
    for i in 0..lines.len()
        invariant
            marker@ == "# "@,
            forall|j: int| 0 <= j < i ==> !is_title_line(#[trigger] views(lines@)[j]),
    {
        if starts_with(&lines[i], &marker) {
            assert(is_title_line(views(lines@)[i as int]));
            return true;
        }
    }
    false
}

fn steps_heading_found(lines: &Vec<Vec<char>>) -> (b: bool)
    ensures
        b == exists|i: int| 0 <= i < lines@.len() && is_steps_heading(#[trigger] views(lines@)[i]),
{
    let heading = chars_of("## Steps");
    for i in 0..lines.len()
        invariant
            heading@ == "## Steps"@,
            forall|j: int| 0 <= j < i ==> !is_steps_heading(#[trigger] views(lines@)[j]),
    {
        if same_chars(&trim(&lines[i]), &heading) {
            assert(is_steps_heading(views(lines@)[i as int]));
            return true;
        }
    }
    false
}

pub(crate) fn numbered_step(line: &Vec<char>) -> (b: bool)
    ensures
        b == is_numbered_step(line@),
{
    let t = trim(line);
    utf8_len_exceeds(&t, 2) && t.len() > 0 && '0' <= t[0] && t[0] <= '9'
        && find(&t, &chars_of(". ")).is_some()
}

fn broken_links(targets: &Vec<LinkTarget>, link_exists: &Vec<bool>) -> (r: Vec<String>)
    requires
        targets@.len() == link_exists@.len(),
    ensures
        string_views(r@) == broken_link_errors(target_links(targets@), link_exists@),
{
    let mut r: Vec<String> = Vec::new();
    let ghost links = target_links(targets@);
    assert(links.skip(0) == links);
    assert(link_exists@.skip(0) == link_exists@);
    for i in 0..targets.len()
        invariant
            links == target_links(targets@),
            targets@.len() == link_exists@.len(),
            broken_link_errors(links, link_exists@) == string_views(r@) + broken_link_errors(
                links.skip(i as int),
                link_exists@.skip(i as int),
            ),
    {
        let ghost rest = links.skip(i as int);
        let ghost ex = link_exists@.skip(i as int);
        assert(rest.drop_first() == links.skip(i + 1));
        assert(ex.drop_first() == link_exists@.skip(i + 1));
        assert(rest[0] == targets@[i as int].link@);
        if !link_exists[i] {
            let mut msg = chars_of("Broken link: ");
            extend_chars(&mut msg, &chars_of(targets[i].link.as_str()));
            let ghost old_r = r@;
            r.push(string_of(&msg));
            assert(string_views(r@) =~= string_views(old_r).push(msg@));
            assert(broken_link_errors(links, link_exists@) =~= string_views(r@)
                + broken_link_errors(links.skip(i + 1), link_exists@.skip(i + 1)));
        } else {
            assert(broken_link_errors(rest, ex) =~= broken_link_errors(rest.drop_first(), ex.drop_first()));
        }
    }
    assert(links.skip(targets.len() as int) =~= Seq::<Seq<char>>::empty());
    assert(string_views(r@) + Seq::<Seq<char>>::empty() == string_views(r@));
    r
}

/// Validates a runbook's content. `link_exists[i]` tells whether the file of
/// the `i`-th checked link (see `link_targets`) exists; `ontology_files` holds
/// the file names of the ontology directory, when one is given.
pub fn validate_runbook(
    content: &str,
    link_exists: &Vec<bool>,
    ontology_files: &Option<Vec<String>>,
) -> (report: ValidationReport)
    requires
        link_exists@.len() == runbook_links(content@).len(),
    ensures
        string_views(report.errors@) == validation_errors(content@, link_exists@),
        string_views(report.warnings@) == validation_warnings(content@, ontology_view(*ontology_files)),
{
    let text = chars_of(content);
    let lines = split_lines(&text);
    let mut errors: Vec<String> = Vec::new();
    let mut warnings: Vec<String> = Vec::new();
    if !title_line_found(&lines) {
        errors.push(string_of(&chars_of("Missing title (no `# ...` heading found)")));
    }
    if !steps_heading_found(&lines) {
        warnings.push(string_of(&chars_of("No `## Steps` section found")));
    }
    let labels = step_numbers(&lines);
    if labels.len() == 0 {
        warnings.push(string_of(&chars_of("No numbered steps found")));
    }
    let harness = harness_check(&lines, &labels);
    let terms = match ontology_files {
        Some(files) => ontology_check(&lines, files),
        None => Vec::new(),
    };
    let ghost step_warnings = string_views(warnings@);
    append_strings(&mut warnings, &harness);
    append_strings(&mut warnings, &terms);
    let targets = link_targets(content);
    let broken = broken_links(&targets, link_exists);
    let ghost title_errors = string_views(errors@);
    let mut k: usize = 0;
    while k < broken.len()
        invariant
            k <= broken.len(),
            string_views(errors@) == title_errors + string_views(broken@).take(k as int),
        decreases broken.len() - k,
    {
        let ghost old_e = errors@;
        errors.push(broken[k].clone());
        assert(string_views(errors@) =~= string_views(old_e).push(broken@[k as int]@));
        assert(string_views(broken@).take(k + 1) =~= string_views(broken@).take(k as int).push(
            broken@[k as int]@,
        ));
        k += 1;
    }
    assert(string_views(broken@).take(broken.len() as int) == string_views(broken@));
    proof {
        assert(has_title(content@) == exists|i: int|
            0 <= i < lines@.len() && is_title_line(#[trigger] views(lines@)[i]));
    }
    assert(string_views(errors@) =~= validation_errors(content@, link_exists@));
    assert(string_views(terms@) == match ontology_view(*ontology_files) {
        Some(files) => missing_term_warnings(terms_of_lines(line_seq(content@)), files),
        None => Seq::<Seq<char>>::empty(),
    }) by {
        if ontology_files.is_none() {
            assert(string_views(terms@) =~= Seq::<Seq<char>>::empty());
        }
    }
    assert(string_views(warnings@) =~= validation_warnings(content@, ontology_view(*ontology_files)));
    ValidationReport { errors, warnings }
}

} // verus!

verus! {

/// The lines `validate` prints for a report: `ERROR: ` before each error,
/// `WARN:  ` before each warning, and `OK: no issues found` when there is
/// neither.
pub open spec fn report_output(errors: Seq<Seq<char>>, warnings: Seq<Seq<char>>) -> Seq<Seq<char>> {
    let ok: Seq<Seq<char>> = if errors.len() == 0 && warnings.len() == 0 {
        seq!["OK: no issues found"@]
    } else {
        seq![]
    };
    prefixed("ERROR: "@, errors) + prefixed("WARN:  "@, warnings) + ok
}

impl ValidationReport {
    /// The lines to print for this report.
    pub fn output_lines(&self) -> (r: Vec<String>)
        ensures
            string_views(r@) == report_output(string_views(self.errors@), string_views(self.warnings@)),
    {
        let mut r: Vec<String> = Vec::new();
        assert(string_views(r@) =~= Seq::<Seq<char>>::empty());
        push_prefixed(&mut r, "ERROR: ", &self.errors);
        push_prefixed(&mut r, "WARN:  ", &self.warnings);
        if self.errors.len() == 0 && self.warnings.len() == 0 {
            let ghost old_r = r@;
            r.push(string_of(&chars_of("OK: no issues found")));
            assert(string_views(r@) =~= string_views(old_r).push("OK: no issues found"@));
        }
        assert(string_views(r@) =~= report_output(string_views(self.errors@), string_views(self.warnings@)));
        r
    }
}

// ---------------------------------------------------------------------------
// Listing: title and size
// ---------------------------------------------------------------------------

/// The title of the first `# ` line of `lines`, trimmed; empty when none.
pub open spec fn first_title(lines: Seq<Seq<char>>) -> Seq<char>
    decreases lines.len(),
{
    if lines.len() == 0 {
        seq![]
    } else if is_title_line(lines[0]) {
        trimmed(lines[0].skip(2))
    } else {
        first_title(lines.drop_first())
    }
}

/// A runbook's title: the text after `# ` on its first title line, trimmed.
pub open spec fn title_of(content: Seq<char>) -> Seq<char> {
    first_title(line_seq(content))
}

/// The title a runbook is listed under.
pub fn runbook_title(content: &str) -> (r: String)
    ensures
        r@ == title_of(content@),
{
    let text = chars_of(content);
    let lines = split_lines(&text);
    let marker = chars_of("# ");
    assert(views(lines@).skip(0) == views(lines@));
    for i in 0..lines.len()
        invariant
            marker@ == "# "@,
            views(lines@) == line_seq(content@),
            title_of(content@) == first_title(views(lines@).skip(i as int)),
    {
        let ghost rest = views(lines@).skip(i as int);
        assert(rest[0] == lines@[i as int]@);
        assert(rest.drop_first() == views(lines@).skip(i + 1));
        if starts_with(&lines[i], &marker) {
            assert(marker@.len() == 2) by {
                reveal_strlit("# ");
            }
            let after = slice_chars(&lines[i], 2, lines[i].len());
            assert(after@ == lines@[i as int]@.skip(2));
            return string_of(&trim(&after));
        }
    }
    assert(views(lines@).skip(lines.len() as int) =~= Seq::<Seq<char>>::empty());
    string_of(&Vec::new())
}

/// The number of lines of a runbook, as `str::lines` counts them.
pub fn line_count(content: &str) -> (n: usize)
    ensures
        n == line_seq(content@).len(),
{
    let text = chars_of(content);
    split_lines(&text).len()
}

} // verus!

verus! {

proof fn lemma_no_broken_links(links: Seq<Seq<char>>, exists: Seq<bool>)
    requires
        exists.len() == links.len(),
    ensures
        broken_link_errors(links, exists).len() == 0 <==> forall|i: int|
            0 <= i < exists.len() ==> #[trigger] exists[i],
    decreases links.len(),
{
    if links.len() > 0 {
        lemma_no_broken_links(links.drop_first(), exists.drop_first());
        if forall|i: int| 0 <= i < exists.drop_first().len() ==> #[trigger] exists.drop_first()[i] {
            assert forall|i: int| 0 <= i < exists.len() && exists[0] implies #[trigger] exists[i] by {
                if i > 0 {
                    assert(exists[i] == exists.drop_first()[i - 1]);
                }
            }
        }
        if forall|i: int| 0 <= i < exists.len() ==> #[trigger] exists[i] {
            assert forall|i: int| 0 <= i < exists.drop_first().len() implies #[trigger] exists.drop_first()[i] by {
                assert(exists.drop_first()[i] == exists[i + 1]);
            }
        }
    }
}

/// Law: a runbook fails validation exactly when it has no title or a checked
/// link whose file does not exist; its warnings never make it fail.
pub proof fn lemma_validation_fails_iff(content: Seq<char>, exists: Seq<bool>)
    requires
        exists.len() == runbook_links(content).len(),
    ensures
        validation_errors(content, exists).len() > 0 <==> (!has_title(content) || exists|i: int|
            0 <= i < exists.len() && !#[trigger] exists[i]),
{
    lemma_no_broken_links(runbook_links(content), exists);
}

} // verus!

verus! {

proof fn lemma_line_links_checked(search: Seq<char>)
    ensures
        forall|k: int| 0 <= k < line_links(search).len() ==> link_is_checked(#[trigger] line_links(search)[k]),
    decreases search.len(),
{
    match first_match(search, seq![']', '(']) {
        None => {},
        Some(i) => {
            let rest = search.skip(i + 2);
            match first_match(rest, seq![')']) {
                None => {},
                Some(end) => {
                    lemma_first_match_from(search, seq![']', '('], 0);
                    lemma_first_match_from(rest, seq![')'], 0);
                    assert(occurs_at(search, seq![']', '('], i));
                    assert(occurs_at(rest, seq![')'], end));
                    let link = rest.take(end);
                    let tail = line_links(rest.skip(end));
                    lemma_line_links_checked(rest.skip(end));
                    if link_is_checked(link) {
                        assert forall|k: int| 0 <= k < line_links(search).len() implies link_is_checked(
                            #[trigger] line_links(search)[k],
                        ) by {
                            if k > 0 {
                                assert(line_links(search)[k] == tail[k - 1]);
                            }
                        }
                    }
                },
            }
        },
    }
}

proof fn lemma_links_of_lines_checked(lines: Seq<Seq<char>>)
    ensures
        forall|k: int| 0 <= k < links_of_lines(lines).len() ==> link_is_checked(#[trigger] links_of_lines(lines)[k]),
    decreases lines.len(),
{
    if lines.len() > 0 {
        let first = line_links(lines[0]);
        let rest = links_of_lines(lines.drop_first());
        lemma_line_links_checked(lines[0]);
        lemma_links_of_lines_checked(lines.drop_first());
        assert forall|k: int| 0 <= k < links_of_lines(lines).len() implies link_is_checked(
            #[trigger] links_of_lines(lines)[k],
        ) by {
            if k < first.len() {
                assert(links_of_lines(lines)[k] == first[k]);
            } else {
                assert(links_of_lines(lines)[k] == rest[k - first.len()]);
            }
        }
    }
}

/// Law: no link whose file `validate` checks starts with `http` or `#`, or
/// is empty; web links and anchors are never looked up on disk.
pub proof fn lemma_no_http_link_checked(content: Seq<char>)
    ensures
        forall|i: int|
            0 <= i < runbook_links(content).len() ==> !has_prefix(
                #[trigger] runbook_links(content)[i],
                "http"@,
            ) && !has_prefix(runbook_links(content)[i], "#"@) && runbook_links(content)[i].len()
                > 0,
{
    reveal_strlit("#");
    assert("#"@ =~= seq!['#']);
    lemma_links_of_lines_checked(line_seq(content));
}

/// Law: the title is the whole trimmed text after the `# ` of a first line,
/// whatever its length.
pub proof fn lemma_title_of_first_line(s: Seq<char>, rest: Seq<char>)
    requires
        forall|i: int| 0 <= i < s.len() ==> s[i] != '\n',
    ensures
        title_of("# "@ + s + "\n"@ + rest) == trimmed(s),
{
    reveal_strlit("# ");
    reveal_strlit("\n");
    let a = "# "@ + s;
    let content = "# "@ + s + "\n"@ + rest;
    assert(content =~= a + seq!['\n'] + rest);
    assert(forall|i: int| 0 <= i < a.len() ==> a[i] != '\n') by {
        assert forall|i: int| 0 <= i < a.len() implies a[i] != '\n' by {
            if i >= 2 {
                assert(a[i] == s[i - 2]);
            }
        }
    }
    lemma_line_seq_after_newline(a, rest);
    lemma_line_seq_single(a);
    let lines = line_seq(content);
    let l = without_cr(a);
    assert(lines[0] == l);
    if s.len() > 0 && s.last() == '\r' {
        assert(a.last() == '\r');
        assert(l =~= "# "@ + s.drop_last());
        assert(l.skip(2) =~= without_cr(s));
    } else {
        assert(l == a);
        assert(l.skip(2) =~= without_cr(s));
    }
    assert(l.take(2) =~= "# "@);
    assert(is_title_line(l));
    lemma_trimmed_without_cr(s);
}

} // verus!

verus! {

/// Law: only a line whose trim starts with `## ` ends the `## Steps` section:
/// a numbered step after a `## Steps` line, with no such line between them,
/// counts as a numbered step of the runbook.
pub proof fn lemma_numbered_step_in_section(content: Seq<char>, i: int, j: int)
    requires
        0 <= i < j < line_seq(content).len(),
        trimmed(line_seq(content)[i]) == "## Steps"@,
        is_numbered_step(line_seq(content)[j]),
        forall|k: int|
            i < k < j ==> !has_prefix(trimmed(#[trigger] line_seq(content)[k]), "## "@),
    ensures
        has_numbered_steps(content),
{
    lemma_steps_after_heading(line_seq(content), Seq::<char>::empty(), i, j);
}

} // verus!
