//! Detection of stale jj change descriptions, for the hooks of a coding agent.
//!
//! A description is stale when a change's content, its diff against its
//! parents, has been modified since the description was last set. The library
//! decides; the program around it runs `jj`, reads the repository, and prints.
//!
//! - [`command`] reads the command line and what `jj` prints.
//! - [`hook`] takes a run from one commit to the next.
//! - [`staleness`] checks one change, over the [`fingerprint`]s of its content.
//! - [`report`] words what was found, and [`retry`] bounds how often a session
//!   is kept from ending over it.

pub mod command;
pub mod fingerprint;
pub mod hook;
pub mod id;
pub mod json;
pub mod path;
pub mod report;
pub mod retry;
pub mod staleness;
pub mod text;
pub mod tree;
