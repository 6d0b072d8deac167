//! Worktree manager GUI: the verified core.

pub mod age;
pub mod assets;
pub mod branches;
pub mod commands;
pub mod detail;
pub mod diff;
pub mod fetch;
pub mod files;
pub mod hosts;
pub mod menu;
pub mod order;
pub mod paths;
pub mod platform;
pub mod refs;
pub mod text;
pub mod remote_url;
pub mod rowset;
pub mod run;
pub mod selection;
pub mod sidebar;
