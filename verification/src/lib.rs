//! Suggests the next semantic version of a project from its Conventional
//! Commits history.

pub mod text;
pub mod version;
pub mod precedence;
pub mod commits;
pub mod git_ops;
pub mod output;
