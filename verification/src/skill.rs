//! The `## Runbooks` section of a SKILL.md file: the references it holds.

use vstd::prelude::*;
use crate::text::{
    chars_of, ends_with, find, first_match, has_prefix, has_suffix, lemma_first_match_from,
    lemma_first_match_is, lemma_line_seq_after_newline, lemma_line_seq_single,
    lemma_trimmed_unchanged, without_cr,
    line_seq, occurs_at, same_chars, slice_chars, split_lines, starts_with, string_of,
    strip_prefix_runs, trim, trim_start_matches, trimmed, views,
};

verus! {

// ---------------------------------------------------------------------------
// File names
// ---------------------------------------------------------------------------

/// The characters that end a file name inside a reference line.
pub open spec fn is_name_stop(c: char) -> bool {
    c == ')' || c == ']' || c == ' ' || c == '`' || c == '"'
}

/// The number of characters of `s` before the first name-ending character.
pub open spec fn name_len(s: Seq<char>) -> nat
    decreases s.len(),
{
    if s.len() == 0 {
        0
    } else if is_name_stop(s[0]) {
        0
    } else {
        1 + name_len(s.drop_first())
    }
}

pub proof fn lemma_name_len(s: Seq<char>)
    ensures
        name_len(s) <= s.len(),
        name_len(s) < s.len() ==> is_name_stop(s[name_len(s) as int]),
        forall|j: int| 0 <= j < name_len(s) ==> !is_name_stop(s[j]),
    decreases s.len(),
{
    if s.len() > 0 && !is_name_stop(s[0]) {
        lemma_name_len(s.drop_first());
        assert forall|j: int| 0 <= j < name_len(s) implies !is_name_stop(s[j]) by {
            if j > 0 {
                assert(s[j] == s.drop_first()[j - 1]);
            }
        }
    }
}

/// The runbook file named by a reference line: what follows the first
/// `runbooks/` up to `)`, `]`, a space, a backtick or a double quote, when it
/// ends in `.md`.
pub open spec fn runbook_filename(line: Seq<char>) -> Option<Seq<char>> {
    match first_match(line, "runbooks/"@) {
        None => None,
        Some(idx) => {
            let rest = line.skip(idx + "runbooks/"@.len());
            let name = rest.take(name_len(rest) as int);
            if has_suffix(name, ".md"@) && name.len() > 0 {
                Some(name)
            } else {
                None
            }
        },
    }
}

fn name_end(v: &Vec<char>, from: usize) -> (end: usize)
    requires
        from <= v.len(),
    ensures
        from <= end <= v.len(),
        end - from == name_len(v@.skip(from as int)),
{
    let mut j = from;
    while j < v.len() && !(v[j] == ')' || v[j] == ']' || v[j] == ' ' || v[j] == '`' || v[j] == '"')
        invariant
            from <= j <= v.len(),
            name_len(v@.skip(from as int)) == (j - from) + name_len(v@.skip(j as int)),
        decreases v.len() - j,
    {
        assert(v@.skip(j as int).drop_first() == v@.skip(j + 1));
        j += 1;
    }
    j
}

fn filename_of(line: &Vec<char>) -> (r: Option<Vec<char>>)
    ensures
        match r {
            Some(name) => runbook_filename(line@) == Some(name@),
            None => runbook_filename(line@) is None,
        },
{
    let marker = chars_of("runbooks/");
    match find(line, &marker) {
        None => None,
        Some(idx) => {
            proof {
                lemma_first_match_from(line@, marker@, 0);
                assert(occurs_at(line@, marker@, idx as int));
                assert(idx + marker@.len() <= line@.len());
                assert(marker@.len() == marker.len());
                assert(line@.len() == line.len());
            }
            let start = idx + marker.len();
            let end = name_end(line, start);
            let name = slice_chars(line, start, end);
            assert(name@ == line@.skip(start as int).take(name_len(line@.skip(start as int)) as int));
            let md = chars_of(".md");
            if ends_with(&name, &md) && name.len() > 0 {
                Some(name)
            } else {
                None
            }
        },
    }
}

/// Extracts the runbook file name from a reference line,
/// e.g. `runbooks/foo.md` gives `foo.md`.
pub fn extract_runbook_filename(line: &str) -> (r: Option<String>)
    ensures
        match r {
            Some(name) => runbook_filename(line@) == Some(name@),
            None => runbook_filename(line@) is None,
        },
{
    let v = chars_of(line);
    match filename_of(&v) {
        Some(name) => Some(string_of(&name)),
        None => None,
    }
}

} // verus!

verus! {

// ---------------------------------------------------------------------------
// Trigger phrases
// ---------------------------------------------------------------------------

/// The text between the first two backticks of `line`, if it has two.
pub open spec fn backtick_phrase(line: Seq<char>) -> Option<Seq<char>> {
    match first_match(line, seq!['`']) {
        None => None,
        Some(start) => match first_match(line.skip(start + 1), seq!['`']) {
            None => None,
            Some(end) => Some(line.subrange(start + 1, start + 1 + end)),
        },
    }
}

/// The text before the first `sep` of `s`, trimmed.
pub open spec fn before_separator(s: Seq<char>, sep: Seq<char>) -> Option<Seq<char>> {
    match first_match(s, sep) {
        None => None,
        Some(i) => Some(trimmed(s.take(i))),
    }
}

/// The trigger phrase of a reference line: the text in the first pair of
/// backticks; else, with leading `- ` and then `* ` markers removed, the text
/// before ` — ` or else before ` -- `; else `(none)`.
pub open spec fn trigger_phrase(line: Seq<char>) -> Seq<char> {
    match backtick_phrase(line) {
        Some(t) => t,
        None => {
            let stripped = strip_prefix_runs(strip_prefix_runs(line, "- "@), "* "@);
            match before_separator(stripped, " — "@) {
                Some(t) => t,
                None => match before_separator(stripped, " -- "@) {
                    Some(t) => t,
                    None => "(none)"@,
                },
            }
        },
    }
}

fn backtick_phrase_of(line: &Vec<char>) -> (r: Option<Vec<char>>)
    ensures
        match r {
            Some(t) => backtick_phrase(line@) == Some(t@),
            None => backtick_phrase(line@) is None,
        },
{
    let mut tick: Vec<char> = Vec::new();
    tick.push('`');
    assert(tick@ == seq!['`']);
    match find(line, &tick) {
        None => None,
        Some(start) => {
            proof {
                lemma_first_match_from(line@, tick@, 0);
                assert(occurs_at(line@, tick@, start as int));
                assert(start + tick@.len() <= line@.len());
                assert(tick@.len() == 1);
                assert(line@.len() == line.len());
            }
            let after = slice_chars(line, start + 1, line.len());
            assert(after@ == line@.skip(start + 1));
            match find(&after, &tick) {
                None => None,
                Some(end) => {
                    proof {
                        lemma_first_match_from(after@, tick@, 0);
                        assert(occurs_at(after@, tick@, end as int));
                        assert(end + tick@.len() <= after@.len());
                    }
                    let t = slice_chars(line, start + 1, start + 1 + end);
                    Some(t)
                },
            }
        },
    }
}

fn before_separator_of(s: &Vec<char>, sep: &Vec<char>) -> (r: Option<Vec<char>>)
    ensures
        match r {
            Some(t) => before_separator(s@, sep@) == Some(t@),
            None => before_separator(s@, sep@) is None,
        },
{
    match find(s, sep) {
        None => None,
        Some(i) => {
            proof {
                lemma_first_match_from(s@, sep@, 0);
                assert(occurs_at(s@, sep@, i as int));
                assert(i + sep@.len() <= s@.len());
            }
            let head = slice_chars(s, 0, i);
            assert(head@ == s@.take(i as int));
            Some(trim(&head))
        },
    }
}

fn trigger_of(line: &Vec<char>) -> (r: Vec<char>)
    ensures
        r@ == trigger_phrase(line@),
{
    match backtick_phrase_of(line) {
        Some(t) => t,
        None => {
            let dash = chars_of("- ");
            let star = chars_of("* ");
            let stripped = trim_start_matches(&trim_start_matches(line, &dash), &star);
            let em = chars_of(" — ");
            match before_separator_of(&stripped, &em) {
                Some(t) => t,
                None => {
                    let double = chars_of(" -- ");
                    match before_separator_of(&stripped, &double) {
                        Some(t) => t,
                        None => chars_of("(none)"),
                    }
                },
            }
        },
    }
}

/// Extracts the trigger phrase from a runbook reference line.
pub fn extract_trigger(line: &str) -> (r: String)
    ensures
        r@ == trigger_phrase(line@),
{
    let v = chars_of(line);
    string_of(&trigger_of(&v))
}

// ---------------------------------------------------------------------------
// The references of a SKILL.md file
// ---------------------------------------------------------------------------

/// Whether a trimmed line can be a reference: it ends in `.md` or `.md)`.
pub open spec fn is_reference_line(t: Seq<char>) -> bool {
    has_suffix(t, ".md"@) || has_suffix(t, ".md)"@)
}

/// The (trigger, file name) pairs held by `lines`, read from the top with
/// `in_section` telling whether the lines are inside `## Runbooks`. A line
/// whose trimmed text starts with `## ` opens a section; the references are
/// the trimmed lines of the `## Runbooks` section that end in `.md` or
/// `.md)` and name a runbook file.
pub open spec fn refs_in(lines: Seq<Seq<char>>, in_section: bool) -> Seq<(Seq<char>, Seq<char>)>
    decreases lines.len(),
{
    if lines.len() == 0 {
        seq![]
    } else {
        let t = trimmed(lines[0]);
        let rest = lines.drop_first();
        if has_prefix(t, "## "@) {
            refs_in(rest, t == "## Runbooks"@)
        } else if in_section && is_reference_line(t) {
            match runbook_filename(t) {
                Some(f) => seq![(trigger_phrase(t), f)] + refs_in(rest, true),
                None => refs_in(rest, true),
            }
        } else {
            refs_in(rest, in_section)
        }
    }
}

/// The runbook references of a SKILL.md file's content.
pub open spec fn skill_refs(content: Seq<char>) -> Seq<(Seq<char>, Seq<char>)> {
    refs_in(line_seq(content), false)
}

/// The character sequences held by a sequence of string pairs.
pub open spec fn pair_views(v: Seq<(String, String)>) -> Seq<(Seq<char>, Seq<char>)> {
    v.map_values(|p: (String, String)| (p.0@, p.1@))
}

/// Extracts the runbook references from SKILL.md content: for each line of the
/// `## Runbooks` section that names `runbooks/<file>.md`, its trigger phrase
/// and the file name, in the order of the lines.
pub fn parse_skill_refs(content: &str) -> (refs: Vec<(String, String)>)
    ensures
        pair_views(refs@) == skill_refs(content@),
{
    let text = chars_of(content);
    let lines = split_lines(&text);
    let heading_marker = chars_of("## ");
    let heading = chars_of("## Runbooks");
    let md = chars_of(".md");
    let md_paren = chars_of(".md)");
    let mut in_section = false;
    let mut refs: Vec<(String, String)> = Vec::new();
    assert(views(lines@).skip(0) == views(lines@));
    for i in 0..lines.len()
        invariant
            views(lines@) == line_seq(text@),
            text@ == content@,
            heading_marker@ == "## "@,
            heading@ == "## Runbooks"@,
            md@ == ".md"@,
            md_paren@ == ".md)"@,
            skill_refs(content@) == pair_views(refs@) + refs_in(views(lines@).skip(i as int), in_section),
    {
        let ghost rest = views(lines@).skip(i as int);
        assert(rest[0] == lines@[i as int]@);
        assert(rest.drop_first() == views(lines@).skip(i + 1));
        let ghost before = pair_views(refs@);
        let t = trim(&lines[i]);
        if starts_with(&t, &heading_marker) {
            in_section = same_chars(&t, &heading);
        } else if in_section && (ends_with(&t, &md) || ends_with(&t, &md_paren)) {
            match filename_of(&t) {
                Some(f) => {
                    let trig = trigger_of(&t);
                    refs.push((string_of(&trig), string_of(&f)));
                    assert(pair_views(refs@) =~= before.push((trig@, f@)));
                    assert(before.push((trig@, f@)) + refs_in(views(lines@).skip(i + 1), true)
                        =~= before + (seq![(trig@, f@)] + refs_in(views(lines@).skip(i + 1), true)));
                },
                None => {},
            }
        }
    }
    assert(views(lines@).skip(lines.len() as int) =~= Seq::<Seq<char>>::empty());
    assert(pair_views(refs@) + Seq::<(Seq<char>, Seq<char>)>::empty() == pair_views(refs@));
    refs
}

} // verus!

verus! {

/// A file name free of name-ending characters, followed by one, is read whole.
pub proof fn lemma_name_len_of_prefix(b: Seq<char>, y: Seq<char>)
    requires
        forall|i: int| 0 <= i < b.len() ==> !is_name_stop(#[trigger] b[i]),
        y.len() > 0,
        is_name_stop(y[0]),
    ensures
        name_len(b + y) == b.len(),
    decreases b.len(),
{
    if b.len() == 0 {
        assert(b + y == y);
    } else {
        assert((b + y).drop_first() == b.drop_first() + y);
        assert forall|i: int| 0 <= i < b.drop_first().len() implies !is_name_stop(
            #[trigger] b.drop_first()[i],
        ) by {
            assert(b.drop_first()[i] == b[i + 1]);
        }
        lemma_name_len_of_prefix(b.drop_first(), y);
        assert((b + y)[0] == b[0]);
    }
}

} // verus!

verus! {

/// Whether, after reading `lines` from a state `in_section`, the reader is
/// inside the `## Runbooks` section.
pub open spec fn section_after(lines: Seq<Seq<char>>, in_section: bool) -> bool
    decreases lines.len(),
{
    if lines.len() == 0 {
        in_section
    } else {
        let t = trimmed(lines[0]);
        if has_prefix(t, "## "@) {
            section_after(lines.drop_first(), t == "## Runbooks"@)
        } else {
            section_after(lines.drop_first(), in_section)
        }
    }
}

/// The references of two runs of lines are those of the first followed by
/// those of the second, read in the state the first leaves.
pub proof fn lemma_refs_in_append(a: Seq<Seq<char>>, b: Seq<Seq<char>>, s: bool)
    ensures
        refs_in(a + b, s) == refs_in(a, s) + refs_in(b, section_after(a, s)),
    decreases a.len(),
{
    if a.len() == 0 {
        assert(a + b =~= b);
    } else {
        assert((a + b)[0] == a[0]);
        assert((a + b).drop_first() =~= a.drop_first() + b);
        let t = trimmed(a[0]);
        if has_prefix(t, "## "@) {
            lemma_refs_in_append(a.drop_first(), b, t == "## Runbooks"@);
        } else if !(s && is_reference_line(t)) {
            lemma_refs_in_append(a.drop_first(), b, s);
        } else {
            lemma_refs_in_append(a.drop_first(), b, true);
            match runbook_filename(t) {
                Some(f) => {
                    assert(refs_in(a + b, s) =~= refs_in(a, s) + refs_in(b, section_after(a, s)));
                },
                None => {},
            }
        }
    }
}

/// Lines none of which trims to `## Runbooks`, read from outside the section,
/// hold no reference and leave the reader outside it.
pub proof fn lemma_refs_outside_section(a: Seq<Seq<char>>)
    requires
        forall|k: int| 0 <= k < a.len() ==> trimmed(#[trigger] a[k]) != "## Runbooks"@,
    ensures
        refs_in(a, false) == Seq::<(Seq<char>, Seq<char>)>::empty(),
        !section_after(a, false),
    decreases a.len(),
{
    if a.len() > 0 {
        assert(trimmed(a[0]) != "## Runbooks"@);
        assert forall|k: int| 0 <= k < a.drop_first().len() implies trimmed(
            #[trigger] a.drop_first()[k],
        ) != "## Runbooks"@ by {
            assert(a.drop_first()[k] == a[k + 1]);
        }
        lemma_refs_outside_section(a.drop_first());
    }
}

} // verus!

verus! {

/// Lines whose last lines trim alike hold the same references.
pub proof fn lemma_refs_in_last_same_trim(x: Seq<Seq<char>>, l1: Seq<char>, l2: Seq<char>, s: bool)
    requires
        trimmed(l1) == trimmed(l2),
    ensures
        refs_in(x.push(l1), s) == refs_in(x.push(l2), s),
{
    lemma_refs_in_append(x, seq![l1], s);
    lemma_refs_in_append(x, seq![l2], s);
    assert(x + seq![l1] == x.push(l1));
    assert(x + seq![l2] == x.push(l2));
    let st = section_after(x, s);
    assert(seq![l1].drop_first() =~= Seq::<Seq<char>>::empty());
    assert(seq![l2].drop_first() =~= Seq::<Seq<char>>::empty());
    assert(refs_in(seq![l1], st) == refs_in(seq![l2], st));
}

/// An empty line inside the section holds no reference.
pub proof fn lemma_refs_in_blank_first(x: Seq<Seq<char>>)
    ensures
        refs_in(seq![Seq::<char>::empty()] + x, true) == refs_in(x, true),
{
    reveal_strlit("## ");
    reveal_strlit("runbooks/");
    let l = seq![Seq::<char>::empty()] + x;
    assert(l[0] == Seq::<char>::empty());
    assert(l.drop_first() =~= x);
    assert(trimmed(Seq::<char>::empty()) == Seq::<char>::empty());
    assert(first_match(Seq::<char>::empty(), "runbooks/"@) is None);
}

} // verus!

verus! {

/// Every line of the `## Runbooks` section that ends in `.md` or `.md)` and
/// names a runbook file is a reference, whatever character it starts with: a
/// section holding that one line gives exactly its trigger phrase and file.
pub proof fn lemma_section_line_is_reference(t: Seq<char>, f: Seq<char>)
    requires
        forall|i: int| 0 <= i < t.len() ==> t[i] != '\n',
        trimmed(t) == t,
        !has_prefix(t, "## "@),
        has_suffix(t, ".md"@) || has_suffix(t, ".md)"@),
        runbook_filename(t) == Some(f),
    ensures
        skill_refs("## Runbooks\n"@ + t + "\n"@) == seq![(trigger_phrase(t), f)],
{
    reveal_strlit("## Runbooks\n");
    reveal_strlit("## Runbooks");
    reveal_strlit("## ");
    reveal_strlit(".md");
    reveal_strlit(".md)");
    reveal_strlit("\n");
    let h = "## Runbooks"@;
    let tn = t + seq!['\n'];
    let content = "## Runbooks\n"@ + t + "\n"@;
    assert(content =~= h + seq!['\n'] + tn);
    lemma_line_seq_after_newline(h, tn);
    assert(forall|i: int| 0 <= i < h.len() ==> h[i] != '\n');
    lemma_line_seq_single(h);
    lemma_line_seq_single(t);
    assert(h.last() == 's');
    assert(without_cr(h) == h);
    if has_suffix(t, ".md"@) {
        assert(t.skip(t.len() - 3)[2] == 'd');
        assert(t.last() == 'd');
    } else {
        assert(t.skip(t.len() - 4)[3] == ')');
        assert(t.last() == ')');
    }
    assert(without_cr(t) == t);
    let lines = line_seq(content);
    assert(lines =~= seq![h, t]);
    lemma_trimmed_unchanged(h);
    assert(h.take(3) =~= "## "@);
    assert(has_prefix(h, "## "@));
    assert(lines.drop_first() =~= seq![t]);
    let one = seq![t];
    assert(one[0] == t);
    assert(one.drop_first() =~= Seq::<Seq<char>>::empty());
    assert(refs_in(Seq::<Seq<char>>::empty(), true) =~= Seq::<(Seq<char>, Seq<char>)>::empty());
    assert(refs_in(one, true) == seq![(trigger_phrase(t), f)] + refs_in(one.drop_first(), true));
    assert(refs_in(one, true) =~= seq![(trigger_phrase(t), f)]);
}

/// A file name ends exactly at `)`, `]`, a space, a backtick or a double
/// quote: a name ending in `.md` that holds none of them, written after
/// `runbooks/` and followed by one of them and anything else, is read whole.
pub proof fn lemma_filename_read_whole(b: Seq<char>, c: char, y: Seq<char>)
    requires
        has_suffix(b, ".md"@),
        forall|i: int|
            0 <= i < b.len() ==> #[trigger] b[i] != ')' && b[i] != ']' && b[i] != ' ' && b[i]
                != '`' && b[i] != '"',
        c == ')' || c == ']' || c == ' ' || c == '`' || c == '"',
    ensures
        runbook_filename("runbooks/"@ + b + seq![c] + y) == Some(b),
{
    reveal_strlit("runbooks/");
    reveal_strlit(".md");
    let m = "runbooks/"@;
    let line = m + b + seq![c] + y;
    assert(line.subrange(0, m.len() as int) =~= m);
    lemma_first_match_is(line, m, 0);
    let rest = line.skip(m.len() as int);
    assert(rest =~= b + (seq![c] + y));
    assert forall|i: int| 0 <= i < b.len() implies !is_name_stop(#[trigger] b[i]) by {}
    lemma_name_len_of_prefix(b, seq![c] + y);
    assert(rest.take(b.len() as int) =~= b);
}

} // verus!
