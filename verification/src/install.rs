//! Installing a runbook reference into SKILL.md.

use vstd::prelude::*;
use crate::text::{
    chars_of, ends_with, extend_chars, find, first_match, has_suffix, lemma_first_match_from,
    lemma_first_match_is, lemma_no_match_for_missing_char, lemma_strip_suffix_runs_prefix,
    lemma_trimmed_unchanged, occurs_at, replace_char, replaced, slice_chars, string_of,
    strip_suffix_runs, trim_end_matches, trimmed, has_prefix, line_seq,
    lemma_line_seq_after_newline, lemma_line_seq_single, lemma_occurs_before_newline,
    lemma_trimmed_line_occurs, without_cr, lemma_line_seq_after_line, lemma_line_seq_add_newline,
    lemma_trimmed_without_cr,
};
use crate::skill::{
    is_name_stop, lemma_name_len_of_prefix, lemma_refs_in_append, lemma_refs_in_blank_first,
    lemma_refs_in_last_same_trim, lemma_refs_outside_section, is_reference_line, name_len, refs_in, section_after,
    skill_refs, runbook_filename, trigger_phrase};

verus! {

/// The trigger phrase given to an installed runbook: its file name without the
/// trailing `.md` (every trailing copy of it), with each `-` made a space.
pub open spec fn trigger_for_install(basename: Seq<char>) -> Seq<char> {
    replaced(strip_suffix_runs(basename, ".md"@), '-', ' ')
}

/// The reference line added to SKILL.md for an installed runbook.
pub open spec fn reference_line_for(basename: Seq<char>) -> Seq<char> {
    "- `"@ + trigger_for_install(basename) + "` — [runbooks/"@ + basename + "](runbooks/"@
        + basename + ")\n"@
}

/// Where the reference line goes: before the next `\n## ` after the first
/// `## Runbooks`, or at the end of the content.
pub open spec fn insert_position(content: Seq<char>, section_start: int) -> int {
    let after = section_start + "## Runbooks"@.len();
    match first_match(content.skip(after), "\n## "@) {
        Some(i) => after + i,
        None => content.len() as int,
    }
}

/// SKILL.md content with the reference line for `basename` added: inside the
/// first `## Runbooks` section, at its end, on a line of its own; or, when the
/// content has no such section, in a new `## Runbooks` section at the end.
pub open spec fn with_reference(content: Seq<char>, basename: Seq<char>) -> Seq<char> {
    let line = reference_line_for(basename);
    match first_match(content, "## Runbooks"@) {
        Some(start) => {
            let pos = insert_position(content, start);
            if has_suffix(content.take(pos), seq!['\n']) {
                content.take(pos) + line + content.skip(pos)
            } else {
                content.take(pos) + seq!['\n'] + line + content.skip(pos)
            }
        },
        None => content + "\n## Runbooks\n\n"@ + line,
    }
}

fn trigger_chars(basename: &Vec<char>) -> (r: Vec<char>)
    ensures
        r@ == trigger_for_install(basename@),
{
    let md = chars_of(".md");
    replace_char(&trim_end_matches(basename, &md), '-', ' ')
}

fn reference_chars(basename: &Vec<char>) -> (r: Vec<char>)
    ensures
        r@ == reference_line_for(basename@),
{
    let mut r = chars_of("- `");
    extend_chars(&mut r, &trigger_chars(basename));
    extend_chars(&mut r, &chars_of("` — [runbooks/"));
    extend_chars(&mut r, basename);
    extend_chars(&mut r, &chars_of("](runbooks/"));
    extend_chars(&mut r, basename);
    extend_chars(&mut r, &chars_of(")\n"));
    r
}

/// The trigger phrase for an installed runbook file, e.g. `my-runbook.md`
/// gives `my runbook`.
pub fn install_trigger(basename: &str) -> (r: String)
    ensures
        r@ == trigger_for_install(basename@),
{
    string_of(&trigger_chars(&chars_of(basename)))
}

/// The line that references an installed runbook file.
pub fn reference_line(basename: &str) -> (r: String)
    ensures
        r@ == reference_line_for(basename@),
{
    string_of(&reference_chars(&chars_of(basename)))
}

/// Adds the reference line for `basename` to SKILL.md content.
pub fn add_reference(content: &str, basename: &str) -> (r: String)
    ensures
        r@ == with_reference(content@, basename@),
{
    let c = chars_of(content);
    let line = reference_chars(&chars_of(basename));
    let heading = chars_of("## Runbooks");
    match find(&c, &heading) {
        Some(start) => {
            proof {
                lemma_first_match_from(c@, heading@, 0);
                assert(occurs_at(c@, heading@, start as int));
                assert(c@.len() == c.len());
            }
            let after = start + heading.len();
            let tail = slice_chars(&c, after, c.len());
            assert(tail@ == c@.skip(after as int));
            let next = chars_of("\n## ");
            let pos = match find(&tail, &next) {
                Some(i) => {
                    proof {
                        lemma_first_match_from(tail@, next@, 0);
                        assert(occurs_at(tail@, next@, i as int));
                    }
                    after + i
                },
                None => c.len(),
            };
            assert(pos == insert_position(c@, start as int));
            let head = slice_chars(&c, 0, pos);
            assert(head@ == c@.take(pos as int));
            let mut out = slice_chars(&c, 0, pos);
            let mut newline: Vec<char> = Vec::new();
            newline.push('\n');
            assert(newline@ == seq!['\n']);
            if !ends_with(&head, &newline) {
                out.push('\n');
            }
            extend_chars(&mut out, &line);
            extend_chars(&mut out, &slice_chars(&c, pos, c.len()));
            assert(c@.subrange(pos as int, c@.len() as int) == c@.skip(pos as int));
            string_of(&out)
        },
        None => {
            let mut out = c.clone();
            assert(out@ =~= c@);
            extend_chars(&mut out, &chars_of("\n## Runbooks\n\n"));
            extend_chars(&mut out, &line);
            string_of(&out)
        },
    }
}

} // verus!

verus! {

/// A file name that a reference line carries intact: it ends in `.md`, and
/// holds no `)`, `]`, space, backtick, double quote, `/` or newline.
pub open spec fn is_plain_runbook_name(b: Seq<char>) -> bool {
    &&& has_suffix(b, ".md"@)
    &&& forall|i: int|
        0 <= i < b.len() ==> !is_name_stop(#[trigger] b[i]) && b[i] != '/' && b[i] != '\n'
}

/// The reference line of an installed runbook, without its newline.
pub open spec fn reference_text(b: Seq<char>) -> Seq<char> {
    "- `"@ + trigger_for_install(b) + "` — [runbooks/"@ + b + "](runbooks/"@ + b + seq![')']
}

proof fn lemma_trigger_chars(b: Seq<char>)
    requires
        is_plain_runbook_name(b),
    ensures
        forall|i: int|
            0 <= i < trigger_for_install(b).len() ==> {
                let c = #[trigger] trigger_for_install(b)[i];
                c != '`' && c != '/' && c != '\n'
            },
{
    let s = strip_suffix_runs(b, ".md"@);
    lemma_strip_suffix_runs_prefix(b, ".md"@);
    assert forall|i: int| 0 <= i < trigger_for_install(b).len() implies {
        let c = #[trigger] trigger_for_install(b)[i];
        c != '`' && c != '/' && c != '\n'
    } by {
        assert(s[i] == b[i]);
        assert(!is_name_stop(b[i]));
    }
}

/// Law: the line that `install --add-ref` writes is read back by
/// `parse_skill_refs` as a reference to the installed file, under the trigger
/// phrase `install` gave it; trimming leaves the line as it is.
pub proof fn lemma_reference_line_reads_back(b: Seq<char>)
    requires
        is_plain_runbook_name(b),
    ensures
        reference_line_for(b) == reference_text(b) + seq!['\n'],
        trimmed(reference_text(b)) == reference_text(b),
        runbook_filename(reference_text(b)) == Some(b),
        trigger_phrase(reference_text(b)) == trigger_for_install(b),
        reference_text(b)[0] == '-',
        forall|i: int| 0 <= i < reference_text(b).len() ==> #[trigger] reference_text(b)[i] != '\n',
        is_reference_line(reference_text(b)),
{
    reveal_strlit("- `");
    reveal_strlit("` — [runbooks/");
    reveal_strlit("](runbooks/");
    reveal_strlit(")\n");
    reveal_strlit("runbooks/");
    let t = trigger_for_install(b);
    let l = reference_text(b);
    lemma_trigger_chars(b);
    assert(reference_line_for(b) =~= l + seq!['\n']);
    // The characters of the line, by position.
    let p: int = 3 + t.len() as int + 5;
    assert(l.len() == p + 9 + b.len() + 11 + b.len() + 1);
    assert forall|i: int| 0 <= i < t.len() implies l[3 + i] == t[i] by {}
    assert forall|i: int| 0 <= i < b.len() implies l[p + 9 + i] == b[i] by {}
    let p2: int = p + 9 + b.len() as int + 11;
    assert forall|i: int| 0 <= i < b.len() implies l[p2 + i] == b[i] by {}
    assert forall|i: int| 0 <= i < l.len() implies #[trigger] l[i] != '\n' by {
        if 3 <= i < 3 + t.len() {
            assert(l[i] == t[i - 3]);
        } else if p + 9 <= i < p + 9 + b.len() {
            assert(l[i] == b[i - p - 9]);
        } else if p2 <= i < p2 + b.len() {
            assert(l[i] == b[i - p2]);
        }
    }
    // Trimmed.
    lemma_trimmed_unchanged(l);
    // The file name.
    let marker = "runbooks/"@;
    assert(l.subrange(p, p + 9) =~= marker);
    assert forall|i: int| 0 <= i < p + 8 && i < l.len() implies l[i] != marker[8] by {
        if 3 <= i < 3 + t.len() {
            assert(l[i] == t[i - 3]);
        }
    }
    lemma_no_match_for_missing_char(l, marker, 8, p);
    lemma_first_match_is(l, marker, p);
    let rest = l.skip(p + 9);
    assert(rest =~= b + ("](runbooks/"@ + b + seq![')']));
    lemma_name_len_of_prefix(b, "](runbooks/"@ + b + seq![')']);
    assert(rest.take(b.len() as int) =~= b);
    reveal_strlit(".md");
    assert(b.len() >= 3);
    assert(name_len(rest) == b.len());
    // The trigger phrase.
    let tick = seq!['`'];
    assert(l.subrange(2, 3) =~= tick);
    lemma_no_match_for_missing_char(l, tick, 0, 2);
    lemma_first_match_is(l, tick, 2);
    let after = l.skip(3);
    assert(after.subrange(t.len() as int, t.len() + 1int) =~= tick);
    assert forall|i: int| 0 <= i < t.len() && i < after.len() implies after[i] != tick[0] by {
        assert(after[i] == t[i]);
    }
    lemma_no_match_for_missing_char(after, tick, 0, t.len() as int);
    lemma_first_match_is(after, tick, t.len() as int);
    assert(l.subrange(3, 3 + t.len() as int) =~= t);
    reveal_strlit(".md)");
    assert(b.skip(b.len() - 3) =~= ".md"@);
    let e: int = p2 + b.len() - 3;
    assert(l.len() - 4 == e);
    assert(l[e] == b[b.len() - 3]);
    assert(l[e + 1] == b[b.len() - 2]);
    assert(l[e + 2] == b[b.len() - 1]);
    assert(b[b.len() - 3] == ".md"@[0]);
    assert(b[b.len() - 2] == ".md"@[1]);
    assert(b[b.len() - 1] == ".md"@[2]);
    assert(l.skip(l.len() - 4) =~= ".md)"@);
}

} // verus!

verus! {

/// Law: installing a runbook with `--add-ref` into SKILL.md content that has
/// no `## Runbooks` (which then holds no reference) leaves content whose only
/// reference is the installed file, under the trigger phrase `install` gave it.
pub proof fn lemma_add_reference_new_section(content: Seq<char>, b: Seq<char>)
    requires
        first_match(content, "## Runbooks"@) is None,
        is_plain_runbook_name(b),
    ensures
        skill_refs(content) == Seq::<(Seq<char>, Seq<char>)>::empty(),
        skill_refs(with_reference(content, b)) == skill_refs(content) + seq![
            (trigger_for_install(b), b),
        ],
{
    let h = "## Runbooks"@;
    reveal_strlit("## Runbooks");
    reveal_strlit("\n## Runbooks\n\n");
    reveal_strlit("## ");
    reveal_strlit("runbooks/");
    lemma_reference_line_reads_back(b);
    let r = reference_text(b);
    let y = seq!['\n'] + (r + seq!['\n']);
    let x = h + seq!['\n'] + y;
    assert(with_reference(content, b) =~= content + seq!['\n'] + x);
    // The lines of the new section.
    lemma_line_seq_after_newline(content, x);
    lemma_line_seq_after_newline(h, y);
    lemma_line_seq_single(h);
    lemma_line_seq_after_newline(Seq::<char>::empty(), r + seq!['\n']);
    assert(Seq::<char>::empty() + seq!['\n'] + (r + seq!['\n']) =~= y);
    lemma_line_seq_single(Seq::<char>::empty());
    assert(Seq::<char>::empty() + seq!['\n'] =~= seq!['\n']);
    lemma_line_seq_single(r);
    assert(without_cr(h) == h);
    assert(without_cr(Seq::<char>::empty()) == Seq::<char>::empty());
    assert(without_cr(r) == r);
    let tail = seq![h, Seq::<char>::empty(), r];
    assert(line_seq(x) =~= tail);
    // The lines before it hold no `## Runbooks` heading.
    let before = line_seq(content + seq!['\n']);
    assert forall|k: int| 0 <= k < before.len() implies trimmed(#[trigger] before[k]) != h by {
        if trimmed(before[k]) == h {
            let q = lemma_trimmed_line_occurs(content + seq!['\n'], k, h);
            lemma_occurs_before_newline(content, h, q);
            lemma_first_match_from(content, h, 0);
        }
    }
    lemma_refs_outside_section(before);
    lemma_refs_in_append(before, tail, false);
    // Reading the new section.
    lemma_trimmed_unchanged(h);
    assert(h.take(3) =~= "## "@);
    assert(has_prefix(h, "## "@));
    assert(tail.drop_first() =~= seq![Seq::<char>::empty(), r]);
    assert(seq![Seq::<char>::empty(), r] =~= seq![Seq::<char>::empty()] + seq![r]);
    lemma_refs_in_blank_first(seq![r]);
    assert(!has_prefix(r, "## "@)) by {
        if r.len() >= 3 {
            assert(r.take(3)[0] == '-');
            assert("## "@[0] == '#');
        }
    }
    assert(seq![r].drop_first() =~= Seq::<Seq<char>>::empty());
    assert(seq![r][0] == r);
    assert(refs_in(Seq::<Seq<char>>::empty(), true) =~= Seq::<(Seq<char>, Seq<char>)>::empty());
    assert(refs_in(seq![r], true) =~= seq![(trigger_for_install(b), b)]);
    assert(refs_in(tail, false) == refs_in(seq![Seq::<char>::empty(), r], true));
    assert(skill_refs(with_reference(content, b)) =~= seq![(trigger_for_install(b), b)]);
    let lc = line_seq(content);
    assert forall|k: int| 0 <= k < lc.len() implies trimmed(#[trigger] lc[k]) != h by {
        if trimmed(lc[k]) == h {
            let q = lemma_trimmed_line_occurs(content, k, h);
            lemma_first_match_from(content, h, 0);
        }
    }
    lemma_refs_outside_section(lc);
    assert(skill_refs(content) + seq![(trigger_for_install(b), b)] =~= seq![
        (trigger_for_install(b), b),
    ]);
}

} // verus!

verus! {

/// The content before the reference line goes in, ending in a newline.
pub open spec fn text_before_reference(content: Seq<char>, pos: int) -> Seq<char> {
    if has_suffix(content.take(pos), seq!['\n']) {
        content.take(pos)
    } else {
        content.take(pos) + seq!['\n']
    }
}

/// Where the reference line goes in content that has a `## Runbooks`.
pub open spec fn reference_position(content: Seq<char>) -> int {
    match first_match(content, "## Runbooks"@) {
        Some(start) => insert_position(content, start),
        None => content.len() as int,
    }
}

proof fn lemma_reference_position(content: Seq<char>)
    requires
        first_match(content, "## Runbooks"@) is Some,
    ensures
        0 < reference_position(content) <= content.len(),
        reference_position(content) < content.len() ==> content[reference_position(content)]
            == '\n',
        text_before_reference(content, reference_position(content)).len() > 0,
        text_before_reference(content, reference_position(content)).last() == '\n',
{
    reveal_strlit("## Runbooks");
    reveal_strlit("\n## ");
    let h = "## Runbooks"@;
    let start = first_match(content, h)->0;
    lemma_first_match_from(content, h, 0);
    let after_heading = start + h.len();
    let pos = reference_position(content);
    let tail = content.skip(after_heading);
    lemma_first_match_from(tail, "\n## "@, 0);
    if pos < content.len() {
        let i = pos - after_heading;
        assert(occurs_at(tail, "\n## "@, i));
        assert(tail.subrange(i, i + 4)[0] == '\n');
    }
    let t = content.take(pos);
    if has_suffix(t, seq!['\n']) {
        assert(t.skip(t.len() - 1)[0] == t.last());
    }
}

/// The references of the content with the line added.
proof fn lemma_new_content_refs(content: Seq<char>, b: Seq<char>)
    requires
        is_plain_runbook_name(b),
        first_match(content, "## Runbooks"@) is Some,
        section_after(
            line_seq(text_before_reference(content, reference_position(content))),
            false,
        ),
    ensures
        ({
            let pos = reference_position(content);
            skill_refs(with_reference(content, b)) == refs_in(
                line_seq(text_before_reference(content, pos)),
                false,
            ) + seq![(trigger_for_install(b), b)] + refs_in(line_seq(content.skip(pos)), true)
        }),
{
    reveal_strlit("## ");
    lemma_reference_line_reads_back(b);
    lemma_reference_position(content);
    let pos = reference_position(content);
    let a = text_before_reference(content, pos);
    let s = content.skip(pos);
    let r = reference_text(b);
    let la = line_seq(a);
    let ls = line_seq(s);
    assert(with_reference(content, b) =~= a + (r + seq!['\n'] + s));
    lemma_line_seq_after_line(a, r + seq!['\n'] + s);
    lemma_line_seq_after_newline(r, s);
    lemma_line_seq_single(r);
    assert(without_cr(r) == r);
    let lr = seq![r] + ls;
    assert(line_seq(with_reference(content, b)) =~= la + lr);
    lemma_refs_in_append(la, lr, false);
    assert(lr[0] == r);
    assert(lr.drop_first() =~= ls);
    assert(!has_prefix(r, "## "@)) by {
        if r.len() >= 3 {
            assert(r.take(3)[0] == '-');
            assert("## "@[0] == '#');
        }
    }
    assert(refs_in(lr, true) == seq![(trigger_for_install(b), b)] + refs_in(ls, true));
    assert(skill_refs(with_reference(content, b)) =~= refs_in(la, false) + seq![
        (trigger_for_install(b), b),
    ] + refs_in(ls, true));
}

/// The references of the content as it was, split at the insertion point.
proof fn lemma_old_content_refs(content: Seq<char>)
    requires
        first_match(content, "## Runbooks"@) is Some,
        section_after(
            line_seq(text_before_reference(content, reference_position(content))),
            false,
        ),
    ensures
        ({
            let pos = reference_position(content);
            skill_refs(content) == refs_in(line_seq(text_before_reference(content, pos)), false)
                + refs_in(line_seq(content.skip(pos)), true)
        }),
{
    lemma_reference_position(content);
    let pos = reference_position(content);
    let a = text_before_reference(content, pos);
    let s = content.skip(pos);
    let la = line_seq(a);
    let ls = line_seq(s);
    if has_suffix(content.take(pos), seq!['\n']) {
        assert(content =~= a + s);
        lemma_line_seq_after_line(a, s);
        lemma_refs_in_append(la, ls, false);
    } else if pos < content.len() {
        let s1 = s.drop_first();
        assert(content =~= a + s1);
        lemma_line_seq_after_line(a, s1);
        lemma_refs_in_append(la, line_seq(s1), false);
        lemma_line_seq_after_newline(Seq::<char>::empty(), s1);
        assert(Seq::<char>::empty() + seq!['\n'] + s1 =~= s);
        lemma_line_seq_single(Seq::<char>::empty());
        assert(Seq::<char>::empty() + seq!['\n'] =~= seq!['\n']);
        assert(without_cr(Seq::<char>::empty()) == Seq::<char>::empty());
        assert(ls =~= seq![Seq::<char>::empty()] + line_seq(s1));
        lemma_refs_in_blank_first(line_seq(s1));
    } else {
        assert(content.take(pos) =~= content);
        assert(content.last() != '\n') by {
            if content.last() == '\n' {
                assert(content.take(pos).skip(content.len() - 1) =~= seq!['\n']);
            }
        }
        lemma_line_seq_add_newline(content);
        let lc = line_seq(content);
        let x = lc.drop_last();
        assert(lc =~= x.push(lc.last()));
        assert(la =~= x.push(without_cr(lc.last())));
        lemma_trimmed_without_cr(lc.last());
        lemma_refs_in_last_same_trim(x, lc.last(), without_cr(lc.last()), false);
        assert(s =~= Seq::<char>::empty());
        assert(refs_in(ls, true) =~= Seq::<(Seq<char>, Seq<char>)>::empty());
        assert(skill_refs(content) =~= refs_in(la, false) + refs_in(ls, true));
    }
}

/// Law: installing a runbook with `--add-ref` into SKILL.md content whose
/// `## Runbooks` section is still open where the line goes in adds exactly one
/// reference, to the installed file under the trigger phrase `install` gave
/// it, after the references before that point and before those after it.
/// When the section is not open there (text such as `### Runbooks` or an
/// indented heading in between), the line lands outside it and is not read.
pub proof fn lemma_add_reference_existing_section(content: Seq<char>, b: Seq<char>)
    requires
        is_plain_runbook_name(b),
        first_match(content, "## Runbooks"@) is Some,
        section_after(
            line_seq(text_before_reference(content, reference_position(content))),
            false,
        ),
    ensures
        ({
            let pos = reference_position(content);
            let before = refs_in(line_seq(text_before_reference(content, pos)), false);
            let after = refs_in(line_seq(content.skip(pos)), true);
            &&& skill_refs(content) == before + after
            &&& skill_refs(with_reference(content, b)) == before + seq![
                (trigger_for_install(b), b),
            ] + after
        }),
{
    lemma_old_content_refs(content);
    lemma_new_content_refs(content, b);
}

} // verus!
