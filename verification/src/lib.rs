//! Batch find-and-replace over text files.
//!
//! The engine locates every non-overlapping occurrence of a literal search
//! string inside file contents, records byte offsets (for safe splicing) and
//! character offsets (for display), and rewrites contents by splicing
//! replacements in descending offset order.

pub mod input_enums;
pub mod match_struct;
pub mod replace;
pub mod search_replace;
pub mod text;

pub use match_struct::Match;

pub use input_enums::InputBox;
pub use input_enums::InputMode;
