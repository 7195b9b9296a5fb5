//! The runbooks bundled with the tool, and which of them `init` writes.

use vstd::prelude::*;

verus! {

/// The bundled pre-commit runbook.
pub const DEFAULT_PRECOMMIT: &'static str = "# Precommit\n\nSteps to run before committing code changes.\n\n## Checklist\n\n1. **Run tests and linting**\n   - Rust: `make check` (clippy + test)\n   - JS/TS: `bun test` or `npm test`\n   - Python: `pytest`\n\n2. **Add tests for new behavior**\n   - New functions/methods need unit tests\n   - Bug fixes need regression tests\n   - Edge cases identified during implementation need coverage\n\n3. **Audit instruction files** (if changed)\n   - `module-harness audit` (validates AGENTS.md and project doc consistency)\n   - Verify the instruction file reflects any architectural changes\n\n4. **Review diff**\n   - No secrets, credentials, or API keys in the diff\n   - No debug/temporary code left behind\n   - No unrelated changes bundled in\n";

/// The bundled pre-release runbook.
pub const DEFAULT_PRERELEASE: &'static str = "# Prerelease\n\nSteps to run before publishing a release. Execute all applicable target sections.\n\n## Common (all targets)\n\n1. `make check` (or equivalent test suite)\n2. Verify version bumped in manifest (Cargo.toml / package.json / pyproject.toml)\n3. Update VERSIONS.md / CHANGELOG.md with new version entry\n4. Audit docs: `module-harness audit` (if available)\n5. No secrets in the diff or release notes\n\n## Target: cargo (crates.io)\n\n- `cargo publish --dry-run`\n- Verify `Cargo.toml` metadata (description, license, repository)\n\n## Target: pypi\n\n- Sync pyproject.toml version with Cargo.toml\n- `maturin build` (or `maturin publish --dry-run` if available)\n- Use `--no-sdist` if path dev-dependencies exist\n\n## Target: npm\n\n- `npm pack --dry-run`\n- Verify `package.json` fields (name, version, main/exports)\n\n## Target: github-release\n\n- Tag exists and matches manifest version\n- Binary built: `cargo build --release` (or equivalent)\n- Release notes drafted\n- `gh release create v<version> --generate-notes` with prebuilt binary\n\n## Target: binary-install\n\n- `cargo install --path .` (update ~/.cargo/bin)\n- Verify symlinks (e.g., .bin/agent-doc)\n";

/// A bundled runbook: its file name and its content.
pub struct BundledRunbook {
    pub name: &'static str,
    pub content: &'static str,
}

/// All bundled default runbooks, in the order `init` writes them.
pub fn bundled_runbooks() -> (r: Vec<BundledRunbook>)
    ensures
        r@.len() == 2,
        r@[0].name@ == "precommit.md"@,
        r@[0].content@ == DEFAULT_PRECOMMIT@,
        r@[1].name@ == "prerelease.md"@,
        r@[1].content@ == DEFAULT_PRERELEASE@,
{
    let mut r: Vec<BundledRunbook> = Vec::new();
    r.push(BundledRunbook { name: "precommit.md", content: DEFAULT_PRECOMMIT });
    r.push(BundledRunbook { name: "prerelease.md", content: DEFAULT_PRERELEASE });
    r
}

} // verus!

verus! {

/// Which bundled runbooks `init` writes, given for each whether its file is
/// already there: the indices of those that are not, in ascending order. A
/// file that is already there is never written, so a user's copy stays as it is.
pub fn init_plan(present: &Vec<bool>) -> (plan: Vec<usize>)
    ensures
        forall|k: int|
            0 <= k < plan@.len() ==> #[trigger] plan@[k] < present@.len() && !present@[plan@[k] as int],
        forall|i: int|
            0 <= i < present@.len() && !#[trigger] present@[i] ==> plan@.contains(i as usize),
        forall|k: int, l: int| 0 <= k < l < plan@.len() ==> #[trigger] plan@[k] < #[trigger] plan@[l],
        (forall|i: int| 0 <= i < present@.len() ==> #[trigger] present@[i]) ==> plan@.len() == 0,
{
    let mut plan: Vec<usize> = Vec::new();
    for i in 0..present.len()
        invariant
            forall|k: int|
                0 <= k < plan@.len() ==> #[trigger] plan@[k] < i && !present@[plan@[k] as int],
            forall|j: int| 0 <= j < i && !#[trigger] present@[j] ==> plan@.contains(j as usize),
            forall|k: int, l: int|
                0 <= k < l < plan@.len() ==> #[trigger] plan@[k] < #[trigger] plan@[l],
    {
        if !present[i] {
            let ghost old_plan = plan@;
            plan.push(i);
            assert forall|j: int| 0 <= j < i + 1 && !#[trigger] present@[j] implies plan@.contains(
                j as usize,
            ) by {
                if j == i {
                    assert(plan@[old_plan.len() as int] == i);
                } else {
                    let k = choose|k: int| 0 <= k < old_plan.len() && old_plan[k] == j as usize;
                    assert(plan@[k] == j as usize);
                }
            }
        }
    }
    proof {
        if plan@.len() > 0 {
            assert(!present@[plan@[0] as int]);
        }
    }
    plan
}

} // verus!
