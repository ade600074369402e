//! Keeps a pull-request description's machine-managed summary block up to
//! date: parses ticket identifiers out of the PR title, finds related pull
//! requests in a library repository, and splices a rendered summary block
//! into the body between fixed marker lines.

pub mod cli;
pub mod description_manipulator;
pub mod github_pull_request;
pub mod text;
