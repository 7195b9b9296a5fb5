//! The runbook files of a `runbooks/` directory, as a sorted set of names.

use vstd::prelude::*;
use crate::text::{chars_of, ends_with, has_suffix, string_views};

verus! {

/// `a` comes before `b` in the order of `String`'s `Ord` (by code point, and
/// a proper prefix first).
pub open spec fn lex_less(a: Seq<char>, b: Seq<char>) -> bool
    decreases a.len(),
{
    if a.len() == 0 {
        b.len() > 0
    } else if b.len() == 0 {
        false
    } else if a[0] != b[0] {
        a[0] < b[0]
    } else {
        lex_less(a.drop_first(), b.drop_first())
    }
}

pub proof fn lemma_lex_less_irreflexive(a: Seq<char>)
    ensures
        !lex_less(a, a),
    decreases a.len(),
{
    if a.len() > 0 {
        lemma_lex_less_irreflexive(a.drop_first());
    }
}

pub proof fn lemma_lex_less_transitive(a: Seq<char>, b: Seq<char>, c: Seq<char>)
    requires
        lex_less(a, b),
        lex_less(b, c),
    ensures
        lex_less(a, c),
    decreases a.len(),
{
    if a.len() > 0 && b.len() > 0 && c.len() > 0 && a[0] == b[0] && b[0] == c[0] {
        lemma_lex_less_transitive(a.drop_first(), b.drop_first(), c.drop_first());
    }
}

pub proof fn lemma_lex_less_total(a: Seq<char>, b: Seq<char>)
    ensures
        a == b || lex_less(a, b) || lex_less(b, a),
    decreases a.len(),
{
    if a.len() > 0 && b.len() > 0 && a[0] == b[0] {
        lemma_lex_less_total(a.drop_first(), b.drop_first());
        if a.drop_first() == b.drop_first() {
            assert(a =~= seq![a[0]] + a.drop_first());
            assert(b =~= seq![b[0]] + b.drop_first());
        }
    } else if a.len() == 0 && b.len() == 0 {
        assert(a =~= b);
    }
}

/// Whether `s` is strictly increasing, so that no name occurs twice.
pub open spec fn strictly_sorted(s: Seq<Seq<char>>) -> bool {
    forall|i: int, j: int| 0 <= i < j < s.len() ==> lex_less(#[trigger] s[i], #[trigger] s[j])
}

/// A strictly increasing sequence holds no name twice.
pub proof fn lemma_strictly_sorted_distinct(s: Seq<Seq<char>>)
    requires
        strictly_sorted(s),
    ensures
        forall|i: int, j: int| 0 <= i < j < s.len() ==> s[i] != s[j],
{
    assert forall|i: int, j: int| 0 <= i < j < s.len() implies s[i] != s[j] by {
        assert(lex_less(s[i], s[j]));
        lemma_lex_less_irreflexive(s[i]);
    }
}

/// Whether a directory entry is a runbook file: its name ends in `.md`.
pub open spec fn is_runbook_file(name: Seq<char>) -> bool {
    has_suffix(name, ".md"@)
}

/// `String`'s `<` on character sequences.
pub fn lex_less_chars(a: &Vec<char>, b: &Vec<char>) -> (r: bool)
    ensures
        r == lex_less(a@, b@),
{
    let mut i: usize = 0;
    assert(a@.skip(0) == a@);
    assert(b@.skip(0) == b@);
    while i < a.len() && i < b.len() && a[i] == b[i]
        invariant
            i <= a.len(),
            i <= b.len(),
            lex_less(a@, b@) == lex_less(a@.skip(i as int), b@.skip(i as int)),
        decreases a.len() - i,
    {
        assert(a@.skip(i as int).drop_first() == a@.skip(i + 1));
        assert(b@.skip(i as int).drop_first() == b@.skip(i + 1));
        i += 1;
    }
    if i == a.len() {
        i < b.len()
    } else if i == b.len() {
        false
    } else {
        a[i] < b[i]
    }
}

/// Adds `name` to the strictly sorted `set` unless it is there already.
fn insert_sorted(set: &mut Vec<String>, name: &String)
    requires
        strictly_sorted(string_views(old(set)@)),
    ensures
        strictly_sorted(string_views(final(set)@)),
        forall|x: Seq<char>|
            string_views(final(set)@).contains(x) <==> (string_views(old(set)@).contains(x) || x
                == name@),
{
    let nc = chars_of(name.as_str());
    let mut k: usize = 0;
    while k < set.len() && lex_less_chars(&chars_of(set[k].as_str()), &nc)
        invariant
            k <= set.len(),
            nc@ == name@,
            strictly_sorted(string_views(set@)),
            forall|i: int| 0 <= i < k ==> lex_less(#[trigger] string_views(set@)[i], name@),
        decreases set.len() - k,
    {
        k += 1;
    }
    let ghost old_views = string_views(set@);
    if k < set.len() && same_name(&set[k], &nc) {
        assert(old_views[k as int] == name@);
        return;
    }
    proof {
        if k < set.len() {
            lemma_lex_less_total(old_views[k as int], name@);
        }
        assert forall|j: int| k <= j < old_views.len() implies lex_less(name@, #[trigger] old_views[j]) by {
            if j > k {
                lemma_lex_less_transitive(name@, old_views[k as int], old_views[j]);
            }
        }
    }
    set.insert(k, name.clone());
    let ghost new_views = string_views(set@);
    assert(new_views =~= old_views.insert(k as int, name@));
    assert forall|i: int, j: int| 0 <= i < j < new_views.len() implies lex_less(
        #[trigger] new_views[i],
        #[trigger] new_views[j],
    ) by {
        if j < k {
        } else if j == k {
        } else if i < k {
            lemma_lex_less_transitive(new_views[i], name@, new_views[j]);
        } else if i == k {
        } else {
            assert(new_views[i] == old_views[i - 1]);
            assert(new_views[j] == old_views[j - 1]);
        }
    }
    assert forall|x: Seq<char>| new_views.contains(x) <==> (old_views.contains(x) || x == name@) by {
        if new_views.contains(x) {
            let i = choose|i: int| 0 <= i < new_views.len() && new_views[i] == x;
            if i < k {
                assert(old_views[i] == x);
            } else if i > k {
                assert(old_views[i - 1] == x);
            }
        }
        if old_views.contains(x) {
            let i = choose|i: int| 0 <= i < old_views.len() && old_views[i] == x;
            if i < k {
                assert(new_views[i] == x);
            } else {
                assert(new_views[i + 1] == x);
            }
        }
        if x == name@ {
            assert(new_views[k as int] == x);
        }
    }
}

fn same_name(s: &String, v: &Vec<char>) -> (r: bool)
    ensures
        r == (s@ == v@),
{
    crate::text::same_chars(&chars_of(s.as_str()), v)
}

/// The runbook files among a directory's entry names: those ending in `.md`,
/// each once, in ascending order.
pub fn runbook_file_set(names: &Vec<String>) -> (set: Vec<String>)
    ensures
        strictly_sorted(string_views(set@)),
        forall|i: int, j: int| 0 <= i < j < set@.len() ==> set@[i]@ != set@[j]@,
        forall|x: Seq<char>|
            #[trigger] string_views(set@).contains(x) <==> (string_views(names@).contains(x)
                && is_runbook_file(x)),
{
    let mut set: Vec<String> = Vec::new();
    let md = chars_of(".md");
    let mut i: usize = 0;
    while i < names.len()
        invariant
            i <= names.len(),
            md@ == ".md"@,
            strictly_sorted(string_views(set@)),
            forall|x: Seq<char>|
                #[trigger] string_views(set@).contains(x) <==> (string_views(names@).take(
                    i as int,
                ).contains(x) && is_runbook_file(x)),
        decreases names.len() - i,
    {
        let ghost n = names@[i as int]@;
        let ghost t = string_views(names@).take(i as int);
        assert(string_views(names@).take(i + 1) =~= t.push(n));
        assert forall|x: Seq<char>| t.push(n).contains(x) <==> (t.contains(x) || x == n) by {
            if t.push(n).contains(x) && x != n {
                let j = choose|j: int| 0 <= j < t.len() + 1 && t.push(n)[j] == x;
                assert(t[j] == x);
            }
            if t.contains(x) {
                let j = choose|j: int| 0 <= j < t.len() && t[j] == x;
                assert(t.push(n)[j] == x);
            }
            if x == n {
                assert(t.push(n)[t.len() as int] == x);
            }
        }
        let ghost before = string_views(set@);
        let is_md = ends_with(&chars_of(names[i].as_str()), &md);
        assert(is_md == is_runbook_file(n));
        if is_md {
            insert_sorted(&mut set, &names[i]);
        }
        assert forall|x: Seq<char>|
            string_views(set@).contains(x) <==> (t.push(n).contains(x) && is_runbook_file(x)) by {
            assert(before.contains(x) <==> (t.contains(x) && is_runbook_file(x)));
            if is_md {
                assert(string_views(set@).contains(x) <==> (before.contains(x) || x == n));
            } else {
                assert(string_views(set@) == before);
            }
        }
        i += 1;
    }
    assert(string_views(names@).take(names.len() as int) == string_views(names@));
    proof {
        lemma_strictly_sorted_distinct(string_views(set@));
        assert forall|i: int, j: int| 0 <= i < j < set@.len() implies set@[i]@ != set@[j]@ by {
            assert(string_views(set@)[i] == set@[i]@);
            assert(string_views(set@)[j] == set@[j]@);
        }
    }
    set
}

} // verus!
