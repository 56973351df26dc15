//! GitSync's core logic: the rules that decide what the desktop front end
//! shows and writes, separated from the repository and file-system access
//! that feeds them.

pub mod analysis;
pub mod blame;
pub mod conflict;
pub mod diff;
pub mod encoding;
pub mod history;
pub mod numbers;
pub mod paths;
pub mod query;
pub mod rebase;
pub mod repo;
pub mod search;
pub mod sql;
pub mod text;
pub mod tree;
