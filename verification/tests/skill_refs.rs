use agent_runbooks::install::{add_reference, install_trigger, reference_line};
use agent_runbooks::paths::{join_path, resolve_dir};
use agent_runbooks::skill::{extract_runbook_filename, extract_trigger, parse_skill_refs};

fn pair(a: &str, b: &str) -> (String, String) {
    (a.to_string(), b.to_string())
}

#[test]
fn parse_refs_from_real_format() {
    let content = "\
# Skill

## Runbooks

- `compact exchange` — [runbooks/compact-exchange.md](runbooks/compact-exchange.md)
- `cleanup` — [runbooks/cleanup.md](runbooks/cleanup.md)

## Other Section
";
    let refs = parse_skill_refs(content);
    assert_eq!(refs.len(), 2);
    assert_eq!(refs[0].0, "compact exchange");
    assert_eq!(refs[0].1, "compact-exchange.md");
    assert_eq!(refs[1].0, "cleanup");
    assert_eq!(refs[1].1, "cleanup.md");
}

#[test]
fn parse_refs_ignores_other_sections() {
    let content = "\
# Skill

## Overview

See runbooks/not-a-ref.md for info.

## Runbooks

- `real` — [runbooks/real.md](runbooks/real.md)
";
    let refs = parse_skill_refs(content);
    assert_eq!(refs.len(), 1);
    assert_eq!(refs[0].1, "real.md");
}

#[test]
fn parse_refs_section_ends_at_next_heading() {
    let content = "## Runbooks\n- runbooks/a.md\n## Later\n- runbooks/b.md\n## Runbooks\n- runbooks/c.md";
    let refs = parse_skill_refs(content);
    assert_eq!(refs, vec![pair("(none)", "a.md"), pair("(none)", "c.md")]);
}

#[test]
fn parse_refs_heading_is_trimmed_and_exact() {
    let content = "  ## Runbooks  \r\n- `x` -- runbooks/x.md\n## Runbooks extra\n- runbooks/y.md\n";
    let refs = parse_skill_refs(content);
    assert_eq!(refs, vec![pair("x", "x.md")]);
}

#[test]
fn parse_refs_skips_lines_without_md_file() {
    let content = "## Runbooks\n- runbooks/notes.txt\n- runbooks/.md\n- see runbooks/\n";
    let refs = parse_skill_refs(content);
    assert_eq!(refs, vec![pair("(none)", ".md")]);
}

#[test]
fn parse_refs_only_lines_ending_in_md() {
    let content = "## Runbooks\n- `a` — see runbooks/a.md first\n- `b` — [runbooks/b.md](runbooks/b.md)\n- runbooks/c.md  \n- `d` [runbooks/d.md]\n";
    let refs = parse_skill_refs(content);
    assert_eq!(refs, vec![pair("b", "b.md"), pair("(none)", "c.md")]);
}

#[test]
fn parse_refs_empty_content() {
    assert!(parse_skill_refs("").is_empty());
}

#[test]
fn filename_stops_at_delimiters() {
    assert_eq!(extract_runbook_filename("[runbooks/foo.md](x)"), Some("foo.md".to_string()));
    assert_eq!(extract_runbook_filename("runbooks/foo.md)"), Some("foo.md".to_string()));
    assert_eq!(extract_runbook_filename("`runbooks/foo.md` x"), Some("foo.md".to_string()));
    assert_eq!(extract_runbook_filename("\"runbooks/foo.md\""), Some("foo.md".to_string()));
    assert_eq!(extract_runbook_filename("runbooks/foo.md more"), Some("foo.md".to_string()));
    assert_eq!(extract_runbook_filename("runbooks/foo.mdx"), None);
    assert_eq!(extract_runbook_filename("no reference here"), None);
    assert_eq!(extract_runbook_filename("runbooks/"), None);
}

#[test]
fn filename_uses_first_marker() {
    assert_eq!(
        extract_runbook_filename("runbooks/a.txt runbooks/b.md"),
        None
    );
    assert_eq!(extract_runbook_filename("x runbooks/sub/runbooks/b.md"), Some("sub/runbooks/b.md".to_string()));
}

#[test]
fn trigger_from_backticks() {
    assert_eq!(extract_trigger("- `deploy app` — [runbooks/d.md](runbooks/d.md)"), "deploy app");
    assert_eq!(extract_trigger("``"), "");
}

#[test]
fn trigger_from_separators() {
    assert_eq!(extract_trigger("- deploy app — runbooks/d.md"), "deploy app");
    assert_eq!(extract_trigger("* deploy -- runbooks/d.md"), "deploy");
    assert_eq!(extract_trigger("- - * x — y"), "x");
    assert_eq!(extract_trigger("one `tick — two"), "one `tick");
    assert_eq!(extract_trigger("runbooks/d.md"), "(none)");
}

#[test]
fn trigger_trims_unicode_whitespace() {
    assert_eq!(extract_trigger("\u{3000}name\u{a0} -- x"), "name");
}

#[test]
fn resolve_dir_without_override() {
    assert_eq!(resolve_dir(&None, "skill"), "skill");
}

#[test]
fn resolve_dir_with_override() {
    assert_eq!(resolve_dir(&Some("base".to_string()), "skill"), "base/skill");
    assert_eq!(resolve_dir(&Some("base/".to_string()), "skill"), "base/skill");
    assert_eq!(resolve_dir(&Some("base".to_string()), "/abs/skill"), "/abs/skill");
    assert_eq!(resolve_dir(&Some(String::new()), "skill"), "skill");
}

#[test]
fn join_path_matches_std() {
    for (a, b) in [("a", "b"), ("a/", "b"), ("", "b"), ("a", ""), ("a", "/b"), ("/", "x/y")] {
        let expected = std::path::Path::new(a).join(b).to_string_lossy().to_string();
        assert_eq!(join_path(a, b), expected);
    }
}

#[test]
fn install_trigger_from_file_name() {
    assert_eq!(install_trigger("my-runbook.md"), "my runbook");
    assert_eq!(install_trigger("a.md.md"), "a");
    assert_eq!(install_trigger("plain"), "plain");
}

#[test]
fn reference_line_format() {
    assert_eq!(
        reference_line("my-runbook.md"),
        "- `my runbook` — [runbooks/my-runbook.md](runbooks/my-runbook.md)\n"
    );
}

#[test]
fn install_with_add_ref() {
    let content = add_reference("# Skill\n\n## Runbooks\n\n", "my-runbook.md");
    assert!(content.contains("runbooks/my-runbook.md"));
    assert!(content.contains("`my runbook`"));
    assert_eq!(
        content,
        "# Skill\n\n## Runbooks\n\n- `my runbook` — [runbooks/my-runbook.md](runbooks/my-runbook.md)\n"
    );
}

#[test]
fn install_creates_runbooks_section_when_missing() {
    let content = add_reference("# Skill\n\nSome content.\n", "foo.md");
    assert!(content.contains("## Runbooks"));
    assert!(content.contains("runbooks/foo.md"));
    assert_eq!(
        content,
        "# Skill\n\nSome content.\n\n## Runbooks\n\n- `foo` — [runbooks/foo.md](runbooks/foo.md)\n"
    );
}

#[test]
fn install_inserts_before_next_section() {
    let content = add_reference("## Runbooks\n- `a` — [runbooks/a.md](runbooks/a.md)\n## Other\nx\n", "b.md");
    assert_eq!(
        content,
        "## Runbooks\n- `a` — [runbooks/a.md](runbooks/a.md)\n- `b` — [runbooks/b.md](runbooks/b.md)\n\n## Other\nx\n"
    );
}

#[test]
fn install_adds_newline_when_section_has_none() {
    let content = add_reference("## Runbooks", "b.md");
    assert_eq!(content, "## Runbooks\n- `b` — [runbooks/b.md](runbooks/b.md)\n");
}

#[test]
fn installed_reference_reads_back() {
    for content in ["", "# Skill\n", "# Skill\r\nno newline at end", "## Other\n- runbooks/x.md\n"] {
        let updated = add_reference(content, "deploy-app.md");
        assert_eq!(
            parse_skill_refs(&updated),
            vec![pair("deploy app", "deploy-app.md")]
        );
    }
}

#[test]
fn installed_reference_reads_back_into_existing_section() {
    let updated = add_reference("# S\n\n## Runbooks\n\n- `a` — [runbooks/a.md](runbooks/a.md)\n\n## Next\n", "b-c.md");
    assert_eq!(
        parse_skill_refs(&updated),
        vec![pair("a", "a.md"), pair("b c", "b-c.md")]
    );
}

#[test]
fn installed_reference_goes_before_next_heading_text() {
    // A `## ` line with nothing after it trims to `##`, which opens no section,
    // so the reference after it still belongs to `## Runbooks`.
    let updated = add_reference("## Runbooks\n## \n- runbooks/x.md\n", "b.md");
    assert_eq!(
        parse_skill_refs(&updated),
        vec![pair("b", "b.md"), pair("(none)", "x.md")]
    );
}
