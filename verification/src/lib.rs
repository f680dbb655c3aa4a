//! A small content-addressed version store in the style of git: objects,
//! trees, commits and references, with their formats and rules verified.

pub mod chain;
pub mod cli;
pub mod commit;
pub mod object;
pub mod refs;
pub mod repo;
pub mod restore;
pub mod table;
pub mod text;
pub mod tree;
pub mod worktree;
