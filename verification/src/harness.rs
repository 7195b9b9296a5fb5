//! The section-aware checks of `validate`: numbered steps inside `## Steps`,
//! the module harness sections (`## Spec`, `## Evals`) and ontology terms.

use vstd::prelude::*;
use crate::text::{
    chars_of, extend_chars, find, first_match, has_prefix, lemma_first_match_from, occurs_at,
    same_chars, slice_chars, starts_with, string_of, string_views, trim, trimmed, views,
};
use crate::runbook::{is_numbered_step, numbered_step};

verus! {

// ---------------------------------------------------------------------------
// Sections
// ---------------------------------------------------------------------------

/// A trimmed line that opens a section.
pub open spec fn is_heading(t: Seq<char>) -> bool {
    has_prefix(t, "## "@)
}

/// The leading ASCII digits of `s`.
pub open spec fn digit_run(s: Seq<char>) -> Seq<char>
    decreases s.len(),
{
    if s.len() > 0 && '0' <= s[0] && s[0] <= '9' {
        seq![s[0]] + digit_run(s.drop_first())
    } else {
        seq![]
    }
}

/// The numbers of the numbered steps inside `## Steps` sections, in order,
/// reading `lines` under the section heading `cur` (empty before the first).
pub open spec fn step_labels(lines: Seq<Seq<char>>, cur: Seq<char>) -> Seq<Seq<char>>
    decreases lines.len(),
{
    if lines.len() == 0 {
        seq![]
    } else {
        let t = trimmed(lines[0]);
        let rest = lines.drop_first();
        if is_heading(t) {
            step_labels(rest, t)
        } else if cur == "## Steps"@ && is_numbered_step(lines[0]) {
            seq![digit_run(t)] + step_labels(rest, cur)
        } else {
            step_labels(rest, cur)
        }
    }
}

fn digit_run_from(v: &Vec<char>, from: usize) -> (r: Vec<char>)
    requires
        from <= v.len(),
    ensures
        r@ == digit_run(v@.skip(from as int)),
{
    let mut r: Vec<char> = Vec::new();
    let mut j = from;
    assert(r@ + digit_run(v@.skip(j as int)) =~= digit_run(v@.skip(from as int)));
    while j < v.len() && '0' <= v[j] && v[j] <= '9'
        invariant
            from <= j <= v.len(),
            r@ + digit_run(v@.skip(j as int)) == digit_run(v@.skip(from as int)),
        decreases v.len() - j,
    {
        assert(v@.skip(j as int).drop_first() == v@.skip(j + 1));
        assert(v@.skip(j as int)[0] == v@[j as int]);
        let ghost old_r = r@;
        r.push(v[j]);
        assert(old_r + (seq![v@[j as int]] + digit_run(v@.skip(j + 1))) =~= r@ + digit_run(
            v@.skip(j + 1),
        ));
        j += 1;
    }
    assert(digit_run(v@.skip(j as int)) =~= Seq::<char>::empty());
    assert(r@ + Seq::<char>::empty() == r@);
    r
}

/// The step numbers of a runbook's lines.
pub fn step_numbers(lines: &Vec<Vec<char>>) -> (r: Vec<Vec<char>>)
    ensures
        views(r@) == step_labels(views(lines@), Seq::<char>::empty()),
{
    let heading_marker = chars_of("## ");
    let steps = chars_of("## Steps");
    let mut cur: Vec<char> = Vec::new();
    let mut r: Vec<Vec<char>> = Vec::new();
    assert(views(lines@).skip(0) == views(lines@));
    for i in 0..lines.len()
        invariant
            heading_marker@ == "## "@,
            steps@ == "## Steps"@,
            step_labels(views(lines@), Seq::<char>::empty()) == views(r@) + step_labels(
                views(lines@).skip(i as int),
                cur@,
            ),
    {
        let ghost rest = views(lines@).skip(i as int);
        assert(rest[0] == lines@[i as int]@);
        assert(rest.drop_first() == views(lines@).skip(i + 1));
        let t = trim(&lines[i]);
        if starts_with(&t, &heading_marker) {
            cur = t;
        } else if same_chars(&cur, &steps) && numbered_step(&lines[i]) {
            let d = digit_run_from(&t, 0);
            assert(t@.skip(0) == t@);
            let ghost before = views(r@);
            let ghost dv = d@;
            r.push(d);
            assert(views(r@) =~= before.push(dv));
            assert(before.push(dv) + step_labels(views(lines@).skip(i + 1), cur@) =~= before + (
            seq![dv] + step_labels(views(lines@).skip(i + 1), cur@)));
        }
    }
    assert(views(lines@).skip(lines.len() as int) =~= Seq::<Seq<char>>::empty());
    assert(views(r@) + Seq::<Seq<char>>::empty() == views(r@));
    r
}

// ---------------------------------------------------------------------------
// Module harness sections
// ---------------------------------------------------------------------------

/// A `## Spec` entry names an actual step: it reads `- Step <n>...` where
/// `<n>` is the number of a numbered step in `## Steps`.
pub open spec fn names_step(t: Seq<char>, labels: Seq<Seq<char>>) -> bool {
    &&& has_prefix(t, "- Step "@)
    &&& digit_run(t.skip("- Step "@.len() as int)).len() > 0
    &&& labels.contains(digit_run(t.skip("- Step "@.len() as int)))
}

/// The characters that end the name of an eval entry.
pub open spec fn is_word_end(c: char) -> bool {
    c == ' ' || c == ':'
}

pub open spec fn word_len(s: Seq<char>) -> nat
    decreases s.len(),
{
    if s.len() == 0 {
        0
    } else if is_word_end(s[0]) {
        0
    } else {
        1 + word_len(s.drop_first())
    }
}

proof fn lemma_word_len(s: Seq<char>)
    ensures
        word_len(s) <= s.len(),
    decreases s.len(),
{
    if s.len() > 0 && !is_word_end(s[0]) {
        lemma_word_len(s.drop_first());
    }
}

/// The name of an `## Evals` entry `- <name> ...`: its first word, up to a
/// space or `:`, without surrounding backticks.
pub open spec fn eval_name(t: Seq<char>) -> Seq<char> {
    let body = t.skip("- "@.len() as int);
    let w = body.take(word_len(body) as int);
    if w.len() >= 2 && w[0] == '`' && w.last() == '`' {
        w.subrange(1, w.len() - 1)
    } else {
        w
    }
}

pub open spec fn is_snake_char(c: char) -> bool {
    ('a' <= c && c <= 'z') || ('0' <= c && c <= '9') || c == '_'
}

/// `snake_case`: a lower-case ASCII letter, then lower-case letters, digits
/// and underscores.
pub open spec fn is_snake_case(n: Seq<char>) -> bool {
    &&& n.len() > 0
    &&& 'a' <= n[0] && n[0] <= 'z'
    &&& forall|i: int| 0 <= i < n.len() ==> is_snake_char(#[trigger] n[i])
}

/// The warning for one entry line `t` under section heading `cur`.
pub open spec fn entry_warnings(t: Seq<char>, cur: Seq<char>, labels: Seq<Seq<char>>) -> Seq<
    Seq<char>,
> {
    if cur == "## Spec"@ && has_prefix(t, "- "@) && !names_step(t, labels) {
        seq!["Spec entry names no step of the runbook: "@ + t]
    } else if cur == "## Evals"@ && has_prefix(t, "- "@) && !is_snake_case(eval_name(t)) {
        seq!["Eval name is not snake_case: "@ + eval_name(t)]
    } else {
        seq![]
    }
}

/// The module harness warnings of `lines`, in order, read under the section
/// heading `cur`, with `labels` the runbook's step numbers.
pub open spec fn harness_warnings(lines: Seq<Seq<char>>, cur: Seq<char>, labels: Seq<Seq<char>>) -> Seq<
    Seq<char>,
>
    decreases lines.len(),
{
    if lines.len() == 0 {
        seq![]
    } else {
        let t = trimmed(lines[0]);
        if is_heading(t) {
            harness_warnings(lines.drop_first(), t, labels)
        } else {
            entry_warnings(t, cur, labels) + harness_warnings(lines.drop_first(), cur, labels)
        }
    }
}

fn contains_label(labels: &Vec<Vec<char>>, d: &Vec<char>) -> (b: bool)
    ensures
        b == views(labels@).contains(d@),
{
    for k in 0..labels.len()
        invariant
            forall|m: int| 0 <= m < k ==> #[trigger] views(labels@)[m] != d@,
    {
        if same_chars(&labels[k], d) {
            assert(views(labels@)[k as int] == d@);
            return true;
        }
    }
    false
}

fn names_step_exec(t: &Vec<char>, labels: &Vec<Vec<char>>) -> (b: bool)
    ensures
        b == names_step(t@, views(labels@)),
{
    let prefix = chars_of("- Step ");
    if !starts_with(t, &prefix) {
        return false;
    }
    let d = digit_run_from(t, prefix.len());
    d.len() > 0 && contains_label(labels, &d)
}

fn eval_name_of(t: &Vec<char>) -> (r: Vec<char>)
    requires
        has_prefix(t@, "- "@),
    ensures
        r@ == eval_name(t@),
{
    let dash = chars_of("- ");
    let start = dash.len();
    let mut j = start;
    assert(t@.skip(start as int) == t@.skip(j as int));
    proof {
        lemma_word_len(t@.skip(start as int));
    }
    while j < t.len() && !(t[j] == ' ' || t[j] == ':')
        invariant
            start <= j <= t.len(),
            word_len(t@.skip(start as int)) == (j - start) + word_len(t@.skip(j as int)),
        decreases t.len() - j,
    {
        assert(t@.skip(j as int).drop_first() == t@.skip(j + 1));
        j += 1;
    }
    let w = slice_chars(t, start, j);
    assert(w@ == t@.skip(start as int).take(word_len(t@.skip(start as int)) as int));
    if w.len() >= 2 && w[0] == '`' && w[w.len() - 1] == '`' {
        slice_chars(&w, 1, w.len() - 1)
    } else {
        w
    }
}

fn is_snake_case_exec(n: &Vec<char>) -> (b: bool)
    ensures
        b == is_snake_case(n@),
{
    if n.len() == 0 || !('a' <= n[0] && n[0] <= 'z') {
        return false;
    }
    for i in 0..n.len()
        invariant
            forall|m: int| 0 <= m < i ==> is_snake_char(#[trigger] n@[m]),
    {
        let c = n[i];
        if !(('a' <= c && c <= 'z') || ('0' <= c && c <= '9') || c == '_') {
            assert(!is_snake_char(n@[i as int]));
            return false;
        }
    }
    true
}

fn entry_warnings_of(t: &Vec<char>, cur: &Vec<char>, labels: &Vec<Vec<char>>) -> (r: Vec<String>)
    ensures
        string_views(r@) == entry_warnings(t@, cur@, views(labels@)),
{
    let mut r: Vec<String> = Vec::new();
    let dash = chars_of("- ");
    let is_entry = starts_with(t, &dash);
    if same_chars(cur, &chars_of("## Spec")) && is_entry && !names_step_exec(t, labels) {
        let mut msg = chars_of("Spec entry names no step of the runbook: ");
        extend_chars(&mut msg, t);
        r.push(string_of(&msg));
        assert(string_views(r@) =~= seq![msg@]);
    } else if same_chars(cur, &chars_of("## Evals")) && is_entry {
        let name = eval_name_of(t);
        if !is_snake_case_exec(&name) {
            let mut msg = chars_of("Eval name is not snake_case: ");
            extend_chars(&mut msg, &name);
            r.push(string_of(&msg));
            assert(string_views(r@) =~= seq![msg@]);
        } else {
            assert(string_views(r@) =~= Seq::<Seq<char>>::empty());
        }
    } else {
        assert(string_views(r@) =~= Seq::<Seq<char>>::empty());
    }
    r
}

/// Appends `add` to `out`.
pub fn append_strings(out: &mut Vec<String>, add: &Vec<String>)
    ensures
        string_views(final(out)@) == string_views(old(out)@) + string_views(add@),
{
    let ghost start = string_views(out@);
    for k in 0..add.len()
        invariant
            string_views(out@) == start + string_views(add@).take(k as int),
    {
        let ghost old_out = out@;
        out.push(add[k].clone());
        assert(string_views(out@) =~= string_views(old_out).push(add@[k as int]@));
        assert(string_views(add@).take(k + 1) =~= string_views(add@).take(k as int).push(
            add@[k as int]@,
        ));
    }
    assert(string_views(add@).take(add.len() as int) == string_views(add@));
}

/// The module harness warnings of a runbook's lines.
pub fn harness_check(lines: &Vec<Vec<char>>, labels: &Vec<Vec<char>>) -> (r: Vec<String>)
    ensures
        string_views(r@) == harness_warnings(views(lines@), Seq::<char>::empty(), views(labels@)),
{
    let heading_marker = chars_of("## ");
    let mut cur: Vec<char> = Vec::new();
    let mut r: Vec<String> = Vec::new();
    let ghost ls = views(labels@);
    assert(views(lines@).skip(0) == views(lines@));
    for i in 0..lines.len()
        invariant
            heading_marker@ == "## "@,
            ls == views(labels@),
            harness_warnings(views(lines@), Seq::<char>::empty(), ls) == string_views(r@)
                + harness_warnings(views(lines@).skip(i as int), cur@, ls),
    {
        let ghost rest = views(lines@).skip(i as int);
        assert(rest[0] == lines@[i as int]@);
        assert(rest.drop_first() == views(lines@).skip(i + 1));
        let t = trim(&lines[i]);
        if starts_with(&t, &heading_marker) {
            cur = t;
        } else {
            let ghost before = string_views(r@);
            let w = entry_warnings_of(&t, &cur, labels);
            append_strings(&mut r, &w);
            assert(before + string_views(w@) + harness_warnings(views(lines@).skip(i + 1), cur@, ls)
                =~= before + (string_views(w@) + harness_warnings(
                views(lines@).skip(i + 1),
                cur@,
                ls,
            )));
        }
    }
    assert(views(lines@).skip(lines.len() as int) =~= Seq::<Seq<char>>::empty());
    assert(string_views(r@) + Seq::<Seq<char>>::empty() == string_views(r@));
    r
}

} // verus!

verus! {

// ---------------------------------------------------------------------------
// Ontology terms
// ---------------------------------------------------------------------------

/// The opening of a term annotation `[term:Name]`.
pub open spec fn term_open() -> Seq<char> {
    seq!['[', 't', 'e', 'r', 'm', ':']
}

/// The names of the term annotations `[term:Name]` of a line, in order: for
/// each `[term:`, the text up to the next `]`, when it is not empty; the
/// search goes on after that `]`.
pub open spec fn line_terms(search: Seq<char>) -> Seq<Seq<char>>
    decreases search.len(),
{
    match first_match(search, term_open()) {
        None => seq![],
        Some(i) => {
            let rest = search.skip(i + 6);
            match first_match(rest, seq![']']) {
                None => seq![],
                Some(end) => {
                    proof {
                        lemma_first_match_from(search, term_open(), 0);
                        lemma_first_match_from(rest, seq![']'], 0);
                        assert(occurs_at(search, term_open(), i));
                        assert(occurs_at(rest, seq![']'], end));
                    }
                    let name = rest.take(end);
                    let tail = line_terms(rest.skip(end + 1));
                    if name.len() > 0 {
                        seq![name] + tail
                    } else {
                        tail
                    }
                },
            }
        },
    }
}

/// The term names of all `lines`, in order.
pub open spec fn terms_of_lines(lines: Seq<Seq<char>>) -> Seq<Seq<char>>
    decreases lines.len(),
{
    if lines.len() == 0 {
        seq![]
    } else {
        line_terms(lines[0]) + terms_of_lines(lines.drop_first())
    }
}

/// Characters equal up to ASCII case.
pub open spec fn same_char_ignoring_case(a: char, b: char) -> bool {
    ||| a == b
    ||| ('A' <= a && a <= 'Z' && (b as u32) == (a as u32) + 32)
    ||| ('A' <= b && b <= 'Z' && (a as u32) == (b as u32) + 32)
}

/// Sequences equal up to ASCII case.
pub open spec fn same_ignoring_case(a: Seq<char>, b: Seq<char>) -> bool {
    a.len() == b.len() && forall|i: int|
        0 <= i < a.len() ==> same_char_ignoring_case(#[trigger] a[i], b[i])
}

/// A term is defined when the ontology directory holds `<Name>.md`, the name
/// compared without regard to ASCII case.
pub open spec fn term_defined(name: Seq<char>, files: Seq<Seq<char>>) -> bool {
    exists|j: int| 0 <= j < files.len() && same_ignoring_case(#[trigger] files[j], name + ".md"@)
}

/// `Missing ontology term: <Name>` for each annotation whose term is not defined.
pub open spec fn missing_term_warnings(terms: Seq<Seq<char>>, files: Seq<Seq<char>>) -> Seq<
    Seq<char>,
>
    decreases terms.len(),
{
    if terms.len() == 0 {
        seq![]
    } else {
        let first: Seq<Seq<char>> = if term_defined(terms[0], files) {
            seq![]
        } else {
            seq!["Missing ontology term: "@ + terms[0]]
        };
        first + missing_term_warnings(terms.drop_first(), files)
    }
}

proof fn lemma_missing_term_warnings_append(a: Seq<Seq<char>>, b: Seq<Seq<char>>, f: Seq<Seq<char>>)
    ensures
        missing_term_warnings(a + b, f) == missing_term_warnings(a, f) + missing_term_warnings(b, f),
    decreases a.len(),
{
    if a.len() == 0 {
        assert(a + b =~= b);
    } else {
        assert((a + b)[0] == a[0]);
        assert((a + b).drop_first() =~= a.drop_first() + b);
        lemma_missing_term_warnings_append(a.drop_first(), b, f);
        let first: Seq<Seq<char>> = if term_defined(a[0], f) {
            seq![]
        } else {
            seq!["Missing ontology term: "@ + a[0]]
        };
        assert(first + (missing_term_warnings(a.drop_first(), f) + missing_term_warnings(b, f))
            =~= first + missing_term_warnings(a.drop_first(), f) + missing_term_warnings(b, f));
    }
}

fn terms_in_line(line: &Vec<char>) -> (r: Vec<Vec<char>>)
    ensures
        views(r@) == line_terms(line@),
{
    let mut open: Vec<char> = Vec::new();
    open.push('[');
    open.push('t');
    open.push('e');
    open.push('r');
    open.push('m');
    open.push(':');
    assert(open@ == term_open());
    let mut close: Vec<char> = Vec::new();
    close.push(']');
    assert(close@ == seq![']']);
    let mut out: Vec<Vec<char>> = Vec::new();
    let mut search = line.clone();
    assert(search@ =~= line@);
    loop
        invariant
            open@ == term_open(),
            close@ == seq![']'],
            line_terms(line@) == views(out@) + line_terms(search@),
        ensures
            views(out@) == line_terms(line@),
        decreases search.len(),
    {
        match find(&search, &open) {
            None => {
                assert(views(out@) + Seq::<Seq<char>>::empty() == views(out@));
                break;
            },
            Some(i) => {
                proof {
                    lemma_first_match_from(search@, open@, 0);
                    assert(occurs_at(search@, open@, i as int));
                    assert(search@.len() == search.len());
                }
                let rest = slice_chars(&search, i + 6, search.len());
                assert(rest@ == search@.skip(i + 6));
                match find(&rest, &close) {
                    None => {
                        assert(views(out@) + Seq::<Seq<char>>::empty() == views(out@));
                        break;
                    },
                    Some(end) => {
                        proof {
                            lemma_first_match_from(rest@, close@, 0);
                            assert(occurs_at(rest@, close@, end as int));
                            assert(rest@.len() == rest.len());
                        }
                        let name = slice_chars(&rest, 0, end);
                        assert(name@ == rest@.take(end as int));
                        let next = slice_chars(&rest, end + 1, rest.len());
                        assert(next@ == rest@.skip(end + 1));
                        let ghost before = views(out@);
                        let ghost tail = line_terms(next@);
                        if name.len() > 0 {
                            let ghost l = name@;
                            out.push(name);
                            assert(views(out@) =~= before.push(l));
                            assert(before + (seq![l] + tail) =~= before.push(l) + tail);
                        }
                        search = next;
                    },
                }
            },
        }
    }
    out
}

fn same_ignoring_case_exec(a: &Vec<char>, b: &Vec<char>) -> (r: bool)
    ensures
        r == same_ignoring_case(a@, b@),
{
    if a.len() != b.len() {
        return false;
    }
    for i in 0..a.len()
        invariant
            a.len() == b.len(),
            forall|m: int| 0 <= m < i ==> same_char_ignoring_case(#[trigger] a@[m], b@[m]),
    {
        let x = a[i];
        let y = b[i];
        let same = x == y || ('A' <= x && x <= 'Z' && (y as u32) == (x as u32) + 32) || ('A' <= y
            && y <= 'Z' && (x as u32) == (y as u32) + 32);
        if !same {
            assert(!same_char_ignoring_case(a@[i as int], b@[i as int]));
            return false;
        }
    }
    true
}

fn term_defined_exec(name: &Vec<char>, files: &Vec<String>) -> (b: bool)
    ensures
        b == term_defined(name@, string_views(files@)),
{
    let mut file_name = name.clone();
    assert(file_name@ =~= name@);
    extend_chars(&mut file_name, &chars_of(".md"));
    for j in 0..files.len()
        invariant
            file_name@ == name@ + ".md"@,
            forall|m: int|
                0 <= m < j ==> !same_ignoring_case(#[trigger] string_views(files@)[m], name@ + ".md"@),
    {
        if same_ignoring_case_exec(&chars_of(files[j].as_str()), &file_name) {
            assert(same_ignoring_case(string_views(files@)[j as int], name@ + ".md"@));
            return true;
        }
    }
    false
}

/// The warnings for the term annotations of a runbook's lines whose terms
/// have no file among `files`, the ontology directory's file names.
pub fn ontology_check(lines: &Vec<Vec<char>>, files: &Vec<String>) -> (r: Vec<String>)
    ensures
        string_views(r@) == missing_term_warnings(terms_of_lines(views(lines@)), string_views(files@)),
{
    let ghost fv = string_views(files@);
    let mut r: Vec<String> = Vec::new();
    assert(views(lines@).skip(0) == views(lines@));
    for i in 0..lines.len()
        invariant
            fv == string_views(files@),
            missing_term_warnings(terms_of_lines(views(lines@)), fv) == string_views(r@)
                + missing_term_warnings(terms_of_lines(views(lines@).skip(i as int)), fv),
    {
        let ghost rest = views(lines@).skip(i as int);
        assert(rest[0] == lines@[i as int]@);
        assert(rest.drop_first() == views(lines@).skip(i + 1));
        let found = terms_in_line(&lines[i]);
        proof {
            lemma_missing_term_warnings_append(views(found@), terms_of_lines(rest.drop_first()), fv);
        }
        let ghost before = string_views(r@);
        for k in 0..found.len()
            invariant
                fv == string_views(files@),
                string_views(r@) == before + missing_term_warnings(views(found@).take(k as int), fv),
        {
            let ghost name = found@[k as int]@;
            proof {
                lemma_missing_term_warnings_append(views(found@).take(k as int), seq![name], fv);
                assert(views(found@).take(k + 1) =~= views(found@).take(k as int) + seq![name]);
                assert(seq![name].drop_first() =~= Seq::<Seq<char>>::empty());
                assert(seq![name][0] == name);
                assert(missing_term_warnings(Seq::<Seq<char>>::empty(), fv) =~= Seq::<
                    Seq<char>,
                >::empty());
            }
            let defined = term_defined_exec(&found[k], files);
            proof {
                if defined {
                    assert(missing_term_warnings(seq![name], fv) =~= Seq::<Seq<char>>::empty());
                } else {
                    assert(missing_term_warnings(seq![name], fv) =~= seq![
                        "Missing ontology term: "@ + name,
                    ]);
                }
            }
            if !defined {
                let mut msg = chars_of("Missing ontology term: ");
                extend_chars(&mut msg, &found[k]);
                let ghost old_r = string_views(r@);
                r.push(string_of(&msg));
                assert(string_views(r@) =~= old_r.push(msg@));
            }
            assert(string_views(r@) =~= before + missing_term_warnings(views(found@).take(k + 1), fv));
        }
        assert(views(found@).take(found.len() as int) == views(found@));
        assert(missing_term_warnings(terms_of_lines(views(lines@)), fv) =~= string_views(r@)
            + missing_term_warnings(terms_of_lines(views(lines@).skip(i + 1)), fv));
    }
    assert(views(lines@).skip(lines.len() as int) =~= Seq::<Seq<char>>::empty());
    assert(string_views(r@) + Seq::<Seq<char>>::empty() == string_views(r@));
    r
}

} // verus!

verus! {

/// Inside `## Steps`, a numbered step that no `## ` line precedes is found.
proof fn lemma_step_found(lines: Seq<Seq<char>>, j: int)
    requires
        0 <= j < lines.len(),
        is_numbered_step(lines[j]),
        forall|k: int| 0 <= k < j ==> !has_prefix(trimmed(#[trigger] lines[k]), "## "@),
    ensures
        step_labels(lines, "## Steps"@).len() > 0,
    decreases j,
{
    reveal_strlit("## ");
    let t = trimmed(lines[0]);
    let rest = lines.drop_first();
    if j == 0 {
        assert(t[0] != '#');
        assert(!has_prefix(t, "## "@)) by {
            if has_prefix(t, "## "@) {
                assert(t.take(3)[0] == '#');
            }
        }
    } else {
        assert(!has_prefix(trimmed(lines[0]), "## "@));
        if !is_numbered_step(lines[0]) {
            assert forall|k: int| 0 <= k < j - 1 implies !has_prefix(
                trimmed(#[trigger] rest[k]),
                "## "@,
            ) by {
                assert(rest[k] == lines[k + 1]);
            }
            assert(rest[j - 1] == lines[j]);
            lemma_step_found(rest, j - 1);
        }
    }
}

/// Lines holding a `## Steps` heading followed by a numbered step, with no
/// `## ` line between them, give a step number whatever section they are read
/// from.
pub(crate) proof fn lemma_steps_after_heading(lines: Seq<Seq<char>>, cur: Seq<char>, i: int, j: int)
    requires
        0 <= i < j < lines.len(),
        trimmed(lines[i]) == "## Steps"@,
        is_numbered_step(lines[j]),
        forall|k: int| i < k < j ==> !has_prefix(trimmed(#[trigger] lines[k]), "## "@),
    ensures
        step_labels(lines, cur).len() > 0,
    decreases i,
{
    reveal_strlit("## ");
    reveal_strlit("## Steps");
    let t = trimmed(lines[0]);
    let rest = lines.drop_first();
    assert forall|k: int| 0 <= k < rest.len() implies #[trigger] rest[k] == lines[k + 1] by {}
    if i == 0 {
        assert(t.take(3) =~= "## "@);
        assert(is_heading(t));
        assert forall|k: int| 0 <= k < j - 1 implies !has_prefix(
            trimmed(#[trigger] rest[k]),
            "## "@,
        ) by {
            assert(rest[k] == lines[k + 1]);
        }
        lemma_step_found(rest, j - 1);
    } else {
        let next = if is_heading(t) { t } else { cur };
        if !(!is_heading(t) && cur == "## Steps"@ && is_numbered_step(lines[0])) {
            assert(step_labels(lines, cur) == step_labels(rest, next));
            assert forall|k: int| i - 1 < k < j - 1 implies !has_prefix(
                trimmed(#[trigger] rest[k]),
                "## "@,
            ) by {
                assert(rest[k] == lines[k + 1]);
            }
            lemma_steps_after_heading(rest, next, i - 1, j - 1);
        }
    }
}

} // verus!
