//! Locates a named project directory within a configured set of search
//! roots and builds the shell commands that load its context.
//!
//! The search roots come from a colon-separated path list; roots are
//! filtered by an optional prefix and by whether they exist on disk.
//! A project is an immediate subdirectory of a root, identified by its
//! basename.  All directory contents are handed in as plain values, so
//! every decision the tool makes is verified here; reading the
//! filesystem itself is left to the caller.

pub mod paths;
pub mod search;
pub mod shell;
