use agent_runbooks::audit::{audit, references_file, AuditStatus};
use agent_runbooks::bundled::{bundled_runbooks, init_plan};
use agent_runbooks::catalog::runbook_file_set;
use agent_runbooks::listing::{list_entry, list_lines, RunbookEntry};
use agent_runbooks::runbook::{line_count, link_targets, runbook_title, validate_runbook};
use agent_runbooks::skill::parse_skill_refs;
use agent_runbooks::text::{chars_of, split_lines, trim};

fn strings(v: &[&str]) -> Vec<String> {
    v.iter().map(|s| s.to_string()).collect()
}

fn validate_all_present(content: &str) -> (Vec<String>, Vec<String>) {
    let n = link_targets(content).len();
    let report = validate_runbook(content, &vec![true; n], &None);
    (report.errors, report.warnings)
}

// -- bundled runbooks and init --

#[test]
fn bundled_content_is_non_empty() {
    for runbook in bundled_runbooks() {
        assert!(!runbook.content.is_empty(), "{} is empty", runbook.name);
    }
}

#[test]
fn bundled_names() {
    let names: Vec<&str> = bundled_runbooks().iter().map(|r| r.name).collect();
    assert_eq!(names, vec!["precommit.md", "prerelease.md"]);
}

#[test]
fn init_runbooks_creates_defaults() {
    let plan = init_plan(&vec![false, false]);
    assert_eq!(plan.len(), 2);
    assert_eq!(plan, vec![0, 1]);
}

#[test]
fn init_runbooks_does_not_overwrite() {
    let plan = init_plan(&vec![true, false]);
    assert_eq!(plan.len(), 1);
    assert_eq!(plan, vec![1]);
}

#[test]
fn init_plan_nothing_when_all_present() {
    assert!(init_plan(&vec![true, true]).is_empty());
}

// -- audit --

#[test]
fn audit_all_ok() {
    let refs = parse_skill_refs(
        "# Test\n\n## Runbooks\n\n- `deploy` — [runbooks/deploy.md](runbooks/deploy.md)\n",
    );
    assert_eq!(refs.len(), 1);
    assert_eq!(refs[0].0, "deploy");
    assert_eq!(refs[0].1, "deploy.md");
    let on_disk = runbook_file_set(&strings(&["deploy.md"]));
    let referenced: std::collections::BTreeSet<String> = refs.iter().map(|(_, f)| f.clone()).collect();
    let on_disk_set: std::collections::BTreeSet<String> = on_disk.iter().cloned().collect();
    assert_eq!(referenced, on_disk_set);
    let report = audit(&refs, &vec![true], &on_disk);
    assert!(!report.has_issues);
    assert_eq!(report.rows.len(), 1);
    assert_eq!(report.rows[0].status, AuditStatus::Found);
    assert_eq!(
        report.table_lines(),
        vec![
            format!("{:<10} {:<40} {}", "STATUS", "PATH", "TRIGGER"),
            "-".repeat(70),
            format!("{:<10} {:<40} {}", "ok", "runbooks/deploy.md", "deploy"),
        ]
    );
}

#[test]
fn audit_detects_missing() {
    let refs = parse_skill_refs(
        "# Test\n\n## Runbooks\n\n- `deploy` — [runbooks/deploy.md](runbooks/deploy.md)\n",
    );
    assert_eq!(refs.len(), 1);
    let report = audit(&refs, &vec![false], &Vec::new());
    assert!(report.has_issues);
    assert_eq!(report.rows[0].status, AuditStatus::Missing);
    assert_eq!(report.rows[0].status.label(), "missing");
}

#[test]
fn audit_detects_orphan() {
    let refs = parse_skill_refs("# Test\n\n## Runbooks\n\n");
    assert!(refs.is_empty());
    let on_disk = runbook_file_set(&strings(&["orphan.md"]));
    assert!(on_disk.contains(&"orphan.md".to_string()));
    let report = audit(&refs, &Vec::new(), &on_disk);
    assert!(report.has_issues);
    assert_eq!(report.rows.len(), 1);
    assert_eq!(report.rows[0].status, AuditStatus::Orphan);
    assert_eq!(report.rows[0].path, "runbooks/orphan.md");
    assert_eq!(report.rows[0].trigger, "");
    assert_eq!(
        report.table_lines()[2],
        format!("{:<10} {:<40} {}", "orphan", "runbooks/orphan.md", "")
    );
}

#[test]
fn audit_rows_follow_references_then_orphans() {
    let refs = vec![
        ("b".to_string(), "b.md".to_string()),
        ("a".to_string(), "a.md".to_string()),
    ];
    let on_disk = runbook_file_set(&strings(&["z.md", "a.md", "b.md", "c.md"]));
    let report = audit(&refs, &vec![true, true], &on_disk);
    let paths: Vec<&str> = report.rows.iter().map(|r| r.path.as_str()).collect();
    assert_eq!(paths, vec!["runbooks/b.md", "runbooks/a.md", "runbooks/c.md", "runbooks/z.md"]);
    assert!(report.has_issues);
}

#[test]
fn references_file_checks_names() {
    let refs = vec![("t".to_string(), "a.md".to_string())];
    assert!(references_file(&refs, "a.md"));
    assert!(!references_file(&refs, "b.md"));
}

// -- runbook files --

#[test]
fn file_set_is_sorted_unique_md_only() {
    let set = runbook_file_set(&strings(&["b.md", "a.md", "notes.txt", "b.md", "B.md", "ab.md", "a.md.bak"]));
    assert_eq!(set, strings(&["B.md", "a.md", "ab.md", "b.md"]));
}

// -- list --

#[test]
fn list_extracts_metadata() {
    let refs = parse_skill_refs(
        "# Skill\n\n## Runbooks\n\n- `setup` — [runbooks/setup.md](runbooks/setup.md)\n",
    );
    let files = runbook_file_set(&strings(&["setup.md"]));
    assert_eq!(files.len(), 1);

    let content = "# Setup Guide\n\nSome content\n\n## Steps\n\n1. First\n2. Second\n";
    let title = runbook_title(content);
    assert_eq!(title, "Setup Guide");
    assert_eq!(line_count(content), 8);
    let entry = list_entry("setup.md", content, &refs);
    assert_eq!(entry.title, "Setup Guide");
    assert_eq!(entry.line_count, 8);
    assert!(entry.referenced);
}

#[test]
fn list_referenced_vs_unreferenced() {
    let refs = parse_skill_refs(
        "# Skill\n\n## Runbooks\n\n- `a` — [runbooks/a.md](runbooks/a.md)\n",
    );
    assert!(references_file(&refs, "a.md"));
    assert!(!references_file(&refs, "b.md"));
    assert!(list_entry("a.md", "# A\n", &refs).referenced);
    assert!(!list_entry("b.md", "# B\n", &refs).referenced);
}

#[test]
fn title_is_first_heading_trimmed() {
    assert_eq!(runbook_title("intro\n#  Spaced Title  \n# Second\n"), "Spaced Title");
    assert_eq!(runbook_title("no heading\n## Sub\n"), "");
    assert_eq!(runbook_title("#NoSpace\n"), "");
}

#[test]
fn line_count_like_str_lines() {
    for s in ["", "a", "a\n", "a\n\n", "a\r\nb", "\n", "a\rb\n"] {
        assert_eq!(line_count(s), s.lines().count());
    }
}

#[test]
fn list_table_format() {
    let entries = vec![
        RunbookEntry {
            filename: "setup.md".to_string(),
            title: "Setup Guide".to_string(),
            line_count: 8,
            referenced: true,
        },
        RunbookEntry {
            filename: "b.md".to_string(),
            title: "B".to_string(),
            line_count: 1234567,
            referenced: false,
        },
    ];
    assert_eq!(
        list_lines(&entries),
        vec![
            format!("{:<30} {:<40} {:<6} {}", "FILENAME", "TITLE", "LINES", "REF"),
            "-".repeat(85),
            format!("{:<30} {:<40} {:<6} {}", "setup.md", "Setup Guide", 8, "yes"),
            format!("{:<30} {:<40} {:<6} {}", "b.md", "B", 1234567, "no"),
        ]
    );
}

// -- validate --

#[test]
fn validate_good_runbook() {
    let content = "# Good Runbook\n\nIntro.\n\n## Steps\n\n1. First step\n2. Second step\n";
    let (errors, warnings) = validate_all_present(content);
    assert!(errors.is_empty());
    assert!(warnings.is_empty());
    let report = validate_runbook(content, &Vec::new(), &None);
    assert_eq!(report.output_lines(), vec!["OK: no issues found".to_string()]);
    assert!(!report.has_errors());
}

#[test]
fn validate_missing_title_detected() {
    let content = "No title here\n\n## Steps\n\n1. Do stuff\n";
    let (errors, warnings) = validate_all_present(content);
    assert_eq!(errors, vec!["Missing title (no `# ...` heading found)".to_string()]);
    assert!(warnings.is_empty());
}

#[test]
fn validate_broken_link_detected() {
    let content = "# Broken\n\nSee [other](nonexistent.md) for details.\n";
    let targets = link_targets(content);
    let links: Vec<&str> = targets.iter().map(|t| t.link.as_str()).collect();
    assert_eq!(links, vec!["nonexistent.md"]);
    let report = validate_runbook(content, &vec![false], &None);
    assert_eq!(report.errors, vec!["Broken link: nonexistent.md".to_string()]);
    assert!(report.has_errors());
    assert_eq!(
        report.output_lines(),
        vec![
            "ERROR: Broken link: nonexistent.md".to_string(),
            "WARN:  No `## Steps` section found".to_string(),
            "WARN:  No numbered steps found".to_string(),
        ]
    );
}

#[test]
fn link_targets_skip_urls_and_anchors() {
    let content = "[a](http://x) [b](#top) [c]() [d](file.md#part) [e](x](y.md)\n[f](open";
    let targets = link_targets(content);
    let got: Vec<(&str, &str)> = targets.iter().map(|t| (t.link.as_str(), t.file.as_str())).collect();
    assert_eq!(got, vec![("file.md#part", "file.md"), ("x](y.md", "x](y.md")]);
}

#[test]
fn link_search_resumes_at_closing_paren() {
    let content = "[a](b.md)(c](d.md)";
    let targets = link_targets(content);
    let links: Vec<&str> = targets.iter().map(|t| t.link.as_str()).collect();
    assert_eq!(links, vec!["b.md", "d.md"]);
}

#[test]
fn broken_links_reported_in_order() {
    let content = "# T\n[a](a.md) [b](b.md)\n[c](c.md)\n";
    let report = validate_runbook(content, &vec![false, true, false], &None);
    assert_eq!(
        report.errors,
        vec!["Broken link: a.md".to_string(), "Broken link: c.md".to_string()]
    );
}

#[test]
fn numbered_step_rules() {
    for (line, numbered) in [
        ("1. x", true),
        ("  3. step  ", true),
        ("1.", false),
        ("1. ", false),
        ("1.x", false),
        ("a. x", false),
        ("１. x", false),
        ("9é. x", true),
    ] {
        let content = format!("# T\n## Steps\n{}\n", line);
        let (_, warnings) = validate_all_present(&content);
        assert_eq!(warnings.is_empty(), numbered, "{:?}", line);
    }
}

#[test]
fn steps_heading_must_match_after_trim() {
    let (_, w1) = validate_all_present("# T\n  ## Steps \n1. a\n");
    assert!(w1.is_empty());
    let (_, w2) = validate_all_present("# T\n## Steps!\n1. a\n");
    assert_eq!(
        w2,
        vec![
            "No `## Steps` section found".to_string(),
            "No numbered steps found".to_string(),
        ]
    );
}

// -- text --

#[test]
fn trim_matches_std() {
    for s in ["", "  a b  ", "\t\n x\u{a0}", "\u{3000}\u{2028}y\u{85}", "\u{200b}z"] {
        let t = trim(&chars_of(s));
        assert_eq!(t.iter().collect::<String>(), s.trim());
    }
}

#[test]
fn split_lines_matches_std() {
    for s in ["a\r\nb\r\n", "a\n\nb", "x\r", "\r\n", ""] {
        let got: Vec<String> = split_lines(&chars_of(s)).iter().map(|l| l.iter().collect()).collect();
        let expected: Vec<String> = s.lines().map(|l| l.to_string()).collect();
        assert_eq!(got, expected);
    }
}

#[test]
fn numbered_steps_must_be_inside_steps_section() {
    let (_, w) = validate_all_present("# T\n\n1. intro\n\n## Steps\n\n- a\n");
    assert_eq!(w, vec!["No numbered steps found".to_string()]);
    let (_, w) = validate_all_present("# T\n## Steps\n- a\n## After\n1. late\n");
    assert_eq!(w, vec!["No numbered steps found".to_string()]);
    let (_, w) = validate_all_present("# T\n## Steps\n- a\n## Other\n## Steps\n2. b\n");
    assert!(w.is_empty());
}

#[test]
fn output_for_step_outside_section() {
    let report = validate_runbook("# T\n\n1. intro\n\n## Steps\n\n- a\n", &Vec::new(), &None);
    assert_eq!(report.output_lines(), vec!["WARN:  No numbered steps found".to_string()]);
    assert!(!report.has_errors());
}

#[test]
fn spec_entries_must_name_steps() {
    let content = "# T\n## Steps\n1. build\n2. test\n## Spec\n- Step 1 builds first\n- Step 3 deploys\n- nothing here\n## Agentic Contracts\n- anything\n";
    let (errors, w) = validate_all_present(content);
    assert!(errors.is_empty());
    assert_eq!(
        w,
        vec![
            "Spec entry names no step of the runbook: - Step 3 deploys".to_string(),
            "Spec entry names no step of the runbook: - nothing here".to_string(),
        ]
    );
}

#[test]
fn eval_names_must_be_snake_case() {
    let content = "# T\n## Steps\n1. a\n## Evals\n- step_order: checks order\n- `verification_not_skipped` — ok\n- StepOrder\n- 2fast\n- bad-name here\n";
    let (_, w) = validate_all_present(content);
    assert_eq!(
        w,
        vec![
            "Eval name is not snake_case: StepOrder".to_string(),
            "Eval name is not snake_case: 2fast".to_string(),
            "Eval name is not snake_case: bad-name".to_string(),
        ]
    );
}

#[test]
fn ontology_terms_checked_when_directory_given() {
    let content = "# T\n## Steps\n1. Run the [term:Audit] and [term:Runbook] [term:Nope]\n[term:] [term:Skill\n";
    let files = Some(vec!["audit.md".to_string(), "Runbook.MD".to_string(), "notes.txt".to_string()]);
    let report = validate_runbook(content, &Vec::new(), &files);
    assert!(report.errors.is_empty());
    assert_eq!(report.warnings, vec!["Missing ontology term: Nope".to_string()]);
    let without = validate_runbook(content, &Vec::new(), &None);
    assert!(without.warnings.is_empty());
}

#[test]
fn warnings_never_fail_validation() {
    let content = "# T\n[term:X]\n## Evals\n- BadName\n";
    let report = validate_runbook(content, &Vec::new(), &Some(Vec::new()));
    assert_eq!(report.warnings.len(), 4);
    assert!(!report.has_errors());
}
