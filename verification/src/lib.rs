//! Verified core of git-toprepo: commit message combination and splitting,
//! path and URL helpers, configuration parsing and the small state machines
//! that drive the command line tool.

pub mod cli;
pub mod commit_message;
pub mod config;
pub mod error;
pub mod fetch;
pub mod footer_law;
pub mod fast_export;
pub mod git;
pub mod gitmodules;
pub mod gitreview;
pub mod hooks;
pub mod inject;
pub mod lfs;
pub mod loader;
pub mod log;
pub mod message_round_trip;
pub mod mono;
pub mod order;
pub mod push;
pub mod push_message_law;
pub mod recombine;
pub mod refs;
pub mod reorder_law;
pub mod repo_name;
pub mod submitted_together;
pub mod text;
pub mod thin;
pub mod url_join_law;
pub mod util;
