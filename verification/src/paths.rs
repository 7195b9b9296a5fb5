//! Joining directory paths, as `Path::join` does on Unix.

use vstd::prelude::*;
use crate::text::{chars_of, extend_chars, string_of};

verus! {

/// `base` joined with `rel`: an absolute `rel` replaces `base`; otherwise `rel`
/// is appended, after a `/` when `base` is non-empty and does not end in one.
pub open spec fn path_joined(base: Seq<char>, rel: Seq<char>) -> Seq<char> {
    if rel.len() > 0 && rel[0] == '/' {
        rel
    } else if base.len() > 0 && base.last() != '/' {
        base + seq!['/'] + rel
    } else {
        base + rel
    }
}

/// The skill directory to work on: `skill_dir` under the `--dir` override when
/// one is given, else `skill_dir` itself.
pub open spec fn resolved_dir(global_dir: Option<Seq<char>>, skill_dir: Seq<char>) -> Seq<char> {
    match global_dir {
        Some(d) => path_joined(d, skill_dir),
        None => skill_dir,
    }
}

/// Joins `rel` onto `base`.
pub fn join_path(base: &str, rel: &str) -> (r: String)
    ensures
        r@ == path_joined(base@, rel@),
{
    let b = chars_of(base);
    let r = chars_of(rel);
    if r.len() > 0 && r[0] == '/' {
        return string_of(&r);
    }
    let mut out = b.clone();
    assert(out@ =~= b@);
    if b.len() > 0 && b[b.len() - 1] != '/' {
        out.push('/');
    }
    extend_chars(&mut out, &r);
    string_of(&out)
}

/// Resolves the skill directory against the optional `--dir` override.
pub fn resolve_dir(global_dir: &Option<String>, skill_dir: &str) -> (r: String)
    ensures
        r@ == resolved_dir(
            match global_dir {
                Some(d) => Some(d@),
                None => None,
            },
            skill_dir@,
        ),
{
    match global_dir {
        Some(d) => join_path(d.as_str(), skill_dir),
        None => string_of(&chars_of(skill_dir)),
    }
}

} // verus!
