//! Noise reduction for the output of command-line tools.

pub mod auto_filter;
pub mod bun_cmd;
pub mod cache;
pub mod comment;
pub mod context_cmd;
pub mod dedup;
pub mod deno_cmd;
pub mod discover;
pub mod gain;
pub mod grouping;
pub mod hashing;
pub mod hook_rewrite_cmd;
pub mod line_diff;
pub mod number;
pub mod order;
pub mod patterns;
pub mod process;
pub mod read;
pub mod style;
pub mod text;
pub mod utils;
pub mod watch_cmd;
