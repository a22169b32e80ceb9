//! Directory portals: named shortcuts to directories, with awareness of git worktrees.

pub mod text;
pub mod path;
pub mod portals;
pub mod config;
pub mod fzf;
pub mod resolve;
pub mod history;
pub mod cli;
