# agent_runbooks

A verified library for agent skill runbooks: it reads the `## Runbooks`
section of a SKILL.md, audits those references against the files in
`runbooks/`, lists and validates runbook files, and adds a reference line when
a runbook is installed.

- `src/` — the library, proved with Verus. `text` holds the character-level
  operations (`trim`, `lines`, `find`, padding) with their specifications;
  `skill`, `install`, `runbook`, `catalog`, `audit`, `listing`, `bundled` and
  `paths` hold the logic of each command, with the laws that tie them together;
  `harness` holds the section-aware checks of `validate` (numbered steps in
  `## Steps`, `## Spec` and `## Evals` entries, `[term:Name]` annotations).
- `app/` — the command-line program: argument parsing, file access and
  printing around the library.
- `tests/` — tests of the library on concrete inputs.
