//! Runbooks for agent skills: reading the `## Runbooks` section of a
//! SKILL.md, auditing it against the runbook files, listing and validating
//! runbooks, and installing them with a reference line.

pub mod text;
pub mod skill;
pub mod paths;
pub mod install;
pub mod runbook;
pub mod catalog;
pub mod audit;
pub mod listing;
pub mod bundled;
pub mod harness;
