//! Counting of lines, words, characters, bytes and display columns, with the
//! rules of GNU `wc`.
//!
//! `text` says what a text is and what its counts are; the other modules count
//! it, print what was counted, and decide what a run does. `laws` holds what
//! is true of them together.

pub mod bits;
pub mod count;
pub mod help;
pub mod laws;
pub mod names;
pub mod options;
pub mod parallel;
pub mod part_laws;
pub mod report;
pub mod run_laws;
pub mod session;
pub mod simd;
pub mod simd_scalar;
pub mod stream;
pub mod strings;
pub mod text;
pub mod text_laws;
pub mod ws;
