//! Cross-checking the references of SKILL.md against the runbook files on disk.

use vstd::prelude::*;
use crate::text::{
    chars_of, extend_chars, padded, push_cell, repeat_char, repeated, same_chars, string_of,
    string_views,
};
use crate::skill::pair_views;

verus! {

/// The status of a row of the audit table.
#[derive(PartialEq, Eq, Structural, Clone, Copy, Debug)]
pub enum AuditStatus {
    /// Referenced, and the file exists.
    Found,
    /// Referenced, but the file does not exist.
    Missing,
    /// The file exists, but nothing references it.
    Orphan,
}

/// The word printed for a status.
pub open spec fn status_label(s: AuditStatus) -> Seq<char> {
    match s {
        AuditStatus::Found => "ok"@,
        AuditStatus::Missing => "missing"@,
        AuditStatus::Orphan => "orphan"@,
    }
}

impl AuditStatus {
    /// The word printed for this status.
    pub fn label(&self) -> (r: String)
        ensures
            r@ == status_label(*self),
    {
        match self {
            AuditStatus::Found => string_of(&chars_of("ok")),
            AuditStatus::Missing => string_of(&chars_of("missing")),
            AuditStatus::Orphan => string_of(&chars_of("orphan")),
        }
    }
}

/// A row of the audit table.
pub struct AuditRow {
    pub status: AuditStatus,
    /// `runbooks/<file>`.
    pub path: String,
    /// The trigger phrase of the reference; empty for an orphan.
    pub trigger: String,
}

/// What the audit found.
pub struct AuditReport {
    pub rows: Vec<AuditRow>,
    /// Whether any reference is missing or any file is an orphan.
    pub has_issues: bool,
}

/// The row as plain values.
pub open spec fn row_view(r: AuditRow) -> (AuditStatus, Seq<char>, Seq<char>) {
    (r.status, r.path@, r.trigger@)
}

pub open spec fn row_views(rows: Seq<AuditRow>) -> Seq<(AuditStatus, Seq<char>, Seq<char>)> {
    rows.map_values(|r: AuditRow| row_view(r))
}

/// Whether some reference names file `f`.
pub open spec fn is_referenced(refs: Seq<(Seq<char>, Seq<char>)>, f: Seq<char>) -> bool {
    exists|i: int| 0 <= i < refs.len() && #[trigger] refs[i].1 == f
}

/// One row per reference, in order: `ok` when its file exists, else `missing`.
pub open spec fn reference_rows(refs: Seq<(Seq<char>, Seq<char>)>, exists: Seq<bool>) -> Seq<
    (AuditStatus, Seq<char>, Seq<char>),
> {
    Seq::new(
        refs.len(),
        |i: int|
            (
                if exists[i] {
                    AuditStatus::Found
                } else {
                    AuditStatus::Missing
                },
                "runbooks/"@ + refs[i].1,
                refs[i].0,
            ),
    )
}

/// One `orphan` row per file on disk that no reference names, in the order of
/// `on_disk`.
pub open spec fn orphan_rows(on_disk: Seq<Seq<char>>, refs: Seq<(Seq<char>, Seq<char>)>) -> Seq<
    (AuditStatus, Seq<char>, Seq<char>),
>
    decreases on_disk.len(),
{
    if on_disk.len() == 0 {
        seq![]
    } else {
        let first: Seq<(AuditStatus, Seq<char>, Seq<char>)> = if is_referenced(refs, on_disk[0]) {
            seq![]
        } else {
            seq![(AuditStatus::Orphan, "runbooks/"@ + on_disk[0], Seq::<char>::empty())]
        };
        first + orphan_rows(on_disk.drop_first(), refs)
    }
}

/// Whether the audit fails: some reference's file is missing, or some file on
/// disk is referenced by nothing.
pub open spec fn audit_fails(
    refs: Seq<(Seq<char>, Seq<char>)>,
    exists: Seq<bool>,
    on_disk: Seq<Seq<char>>,
) -> bool {
    ||| exists|i: int| 0 <= i < refs.len() && !#[trigger] exists[i]
    ||| exists|j: int| 0 <= j < on_disk.len() && !is_referenced(refs, #[trigger] on_disk[j])
}

/// Whether some reference of `refs` names `file`.
pub fn references_file(refs: &Vec<(String, String)>, file: &str) -> (b: bool)
    ensures
        b == is_referenced(pair_views(refs@), file@),
{
    let f = chars_of(file);
    for i in 0..refs.len()
        invariant
            f@ == file@,
            forall|j: int| 0 <= j < i ==> #[trigger] pair_views(refs@)[j].1 != file@,
    {
        if same_chars(&chars_of(refs[i].1.as_str()), &f) {
            assert(pair_views(refs@)[i as int].1 == file@);
            return true;
        }
    }
    false
}

fn runbook_path(file: &str) -> (r: String)
    ensures
        r@ == "runbooks/"@ + file@,
{
    let mut p = chars_of("runbooks/");
    extend_chars(&mut p, &chars_of(file));
    string_of(&p)
}

/// Audits the references of SKILL.md against the runbook files on disk.
/// `ref_exists[i]` tells whether the file of `refs[i]` exists; `on_disk` holds
/// the runbook files found in `runbooks/`.
pub fn audit(refs: &Vec<(String, String)>, ref_exists: &Vec<bool>, on_disk: &Vec<String>) -> (report:
    AuditReport)
    requires
        ref_exists@.len() == refs@.len(),
    ensures
        row_views(report.rows@) == reference_rows(pair_views(refs@), ref_exists@) + orphan_rows(
            string_views(on_disk@),
            pair_views(refs@),
        ),
        report.has_issues == audit_fails(pair_views(refs@), ref_exists@, string_views(on_disk@)),
{
    let ghost prs = pair_views(refs@);
    let ghost ex = ref_exists@;
    let mut rows: Vec<AuditRow> = Vec::new();
    let mut has_issues = false;
    for i in 0..refs.len()
        invariant
            prs == pair_views(refs@),
            ex == ref_exists@,
            ex.len() == refs@.len(),
            row_views(rows@) == reference_rows(prs, ex).take(i as int),
            has_issues == exists|k: int| 0 <= k < i && !#[trigger] ex[k],
    {
        let status = if ref_exists[i] {
            AuditStatus::Found
        } else {
            AuditStatus::Missing
        };
        if !ref_exists[i] {
            has_issues = true;
        }
        let ghost old_rows = rows@;
        rows.push(
            AuditRow {
                status,
                path: runbook_path(refs[i].1.as_str()),
                trigger: string_of(&chars_of(refs[i].0.as_str())),
            },
        );
        assert(row_views(rows@) =~= row_views(old_rows).push(reference_rows(prs, ex)[i as int]));
        assert(reference_rows(prs, ex).take(i + 1) =~= reference_rows(prs, ex).take(i as int).push(
            reference_rows(prs, ex)[i as int],
        ));
    }
    assert(reference_rows(prs, ex).take(refs.len() as int) =~= reference_rows(prs, ex));
    let ghost ref_part = row_views(rows@);
    let ghost disk = string_views(on_disk@);
    let ghost missing = has_issues;
    assert(disk.skip(0) == disk);
    for j in 0..on_disk.len()
        invariant
            prs == pair_views(refs@),
            disk == string_views(on_disk@),
            row_views(rows@) + orphan_rows(disk.skip(j as int), prs) == ref_part + orphan_rows(
                disk,
                prs,
            ),
            has_issues == (missing || exists|k: int|
                0 <= k < j && !is_referenced(prs, #[trigger] disk[k])),
    {
        let ghost rest = disk.skip(j as int);
        assert(rest.drop_first() == disk.skip(j + 1));
        assert(rest[0] == on_disk@[j as int]@);
        let ghost old_rows = rows@;
        if !references_file(refs, on_disk[j].as_str()) {
            has_issues = true;
            rows.push(
                AuditRow {
                    status: AuditStatus::Orphan,
                    path: runbook_path(on_disk[j].as_str()),
                    trigger: String::new(),
                },
            );
            assert(row_views(rows@) =~= row_views(old_rows).push(
                (AuditStatus::Orphan, "runbooks/"@ + rest[0], Seq::<char>::empty()),
            ));
            assert(row_views(rows@) + orphan_rows(disk.skip(j + 1), prs) =~= row_views(old_rows)
                + orphan_rows(rest, prs));
        } else {
            assert(orphan_rows(rest, prs) =~= orphan_rows(disk.skip(j + 1), prs));
        }
    }
    assert(disk.skip(on_disk.len() as int) =~= Seq::<Seq<char>>::empty());
    assert(row_views(rows@) + Seq::<(AuditStatus, Seq<char>, Seq<char>)>::empty() == row_views(
        rows@,
    ));
    AuditReport { rows, has_issues }
}

} // verus!

verus! {

/// A line of the audit table: status in 10 columns, path in 40, then trigger.
pub open spec fn audit_line(status: Seq<char>, path: Seq<char>, trigger: Seq<char>) -> Seq<char> {
    padded(status, 10) + seq![' '] + padded(path, 40) + seq![' '] + trigger
}

/// The lines `audit` prints: a header, a rule of 70 dashes, and one line per row.
pub open spec fn audit_table(rows: Seq<(AuditStatus, Seq<char>, Seq<char>)>) -> Seq<Seq<char>> {
    seq![audit_line("STATUS"@, "PATH"@, "TRIGGER"@), repeated('-', 70)] + rows.map_values(
        |r: (AuditStatus, Seq<char>, Seq<char>)| audit_line(status_label(r.0), r.1, r.2),
    )
}

fn audit_line_chars(status: &str, path: &str, trigger: &str) -> (r: String)
    ensures
        r@ == audit_line(status@, path@, trigger@),
{
    let mut line: Vec<char> = Vec::new();
    push_cell(&mut line, &chars_of(status), 10);
    push_cell(&mut line, &chars_of(path), 40);
    extend_chars(&mut line, &chars_of(trigger));
    assert(line@ =~= audit_line(status@, path@, trigger@));
    string_of(&line)
}

impl AuditReport {
    /// The lines to print for this report.
    pub fn table_lines(&self) -> (r: Vec<String>)
        ensures
            string_views(r@) == audit_table(row_views(self.rows@)),
    {
        let mut r: Vec<String> = Vec::new();
        r.push(audit_line_chars("STATUS", "PATH", "TRIGGER"));
        r.push(string_of(&repeat_char('-', 70)));
        let ghost head = string_views(r@);
        let ghost lines = row_views(self.rows@).map_values(
            |x: (AuditStatus, Seq<char>, Seq<char>)| audit_line(status_label(x.0), x.1, x.2),
        );
        for i in 0..self.rows.len()
            invariant
                head == seq![audit_line("STATUS"@, "PATH"@, "TRIGGER"@), repeated('-', 70)],
                lines == row_views(self.rows@).map_values(
                    |x: (AuditStatus, Seq<char>, Seq<char>)| audit_line(status_label(x.0), x.1, x.2),
                ),
                string_views(r@) == head + lines.take(i as int),
        {
            let row = &self.rows[i];
            let label = row.status.label();
            let ghost old_r = r@;
            r.push(audit_line_chars(label.as_str(), row.path.as_str(), row.trigger.as_str()));
            assert(string_views(r@) =~= string_views(old_r).push(lines[i as int]));
            assert(lines.take(i + 1) =~= lines.take(i as int).push(lines[i as int]));
        }
        assert(lines.take(self.rows.len() as int) == lines);
        assert(string_views(r@) =~= audit_table(row_views(self.rows@)));
        r
    }
}

} // verus!

verus! {

proof fn lemma_orphan_rows(disk: Seq<Seq<char>>, refs: Seq<(Seq<char>, Seq<char>)>)
    ensures
        forall|k: int|
            0 <= k < orphan_rows(disk, refs).len() ==> (#[trigger] orphan_rows(disk, refs)[k]).0
                == AuditStatus::Orphan,
        orphan_rows(disk, refs).len() > 0 <==> exists|j: int|
            0 <= j < disk.len() && !is_referenced(refs, #[trigger] disk[j]),
    decreases disk.len(),
{
    if disk.len() > 0 {
        let rest = disk.drop_first();
        lemma_orphan_rows(rest, refs);
        if exists|j: int| 0 <= j < rest.len() && !is_referenced(refs, #[trigger] rest[j]) {
            let j = choose|j: int| 0 <= j < rest.len() && !is_referenced(refs, #[trigger] rest[j]);
            assert(disk[j + 1] == rest[j]);
        }
        if exists|j: int| 0 <= j < disk.len() && !is_referenced(refs, #[trigger] disk[j]) {
            let j = choose|j: int| 0 <= j < disk.len() && !is_referenced(refs, #[trigger] disk[j]);
            if j > 0 {
                assert(rest[j - 1] == disk[j]);
            }
        }
    }
}

/// Law: the audit fails exactly when its table shows a `missing` or an
/// `orphan` row.
pub proof fn lemma_audit_fails_iff_problem_row(
    refs: Seq<(Seq<char>, Seq<char>)>,
    exists: Seq<bool>,
    on_disk: Seq<Seq<char>>,
)
    requires
        exists.len() == refs.len(),
    ensures
        audit_fails(refs, exists, on_disk) <==> exists|k: int|
            0 <= k < (reference_rows(refs, exists) + orphan_rows(on_disk, refs)).len() && (
            #[trigger] (reference_rows(refs, exists) + orphan_rows(on_disk, refs))[k]).0
                != AuditStatus::Found,
{
    let a = reference_rows(refs, exists);
    let o = orphan_rows(on_disk, refs);
    let rows = a + o;
    lemma_orphan_rows(on_disk, refs);
    if audit_fails(refs, exists, on_disk) {
        if exists|i: int| 0 <= i < refs.len() && !#[trigger] exists[i] {
            let i = choose|i: int| 0 <= i < refs.len() && !#[trigger] exists[i];
            assert(rows[i].0 != AuditStatus::Found);
        } else {
            assert(rows[a.len() as int].0 != AuditStatus::Found);
        }
    }
    if exists|k: int| 0 <= k < rows.len() && (#[trigger] rows[k]).0 != AuditStatus::Found {
        let k = choose|k: int| 0 <= k < rows.len() && (#[trigger] rows[k]).0 != AuditStatus::Found;
        if k < a.len() {
            assert(!exists[k]);
        } else {
            assert(o.len() > 0);
        }
    }
}

} // verus!
