//! Verified solutions to three small text-parsing and arithmetic puzzles.
//!
//! Each puzzle takes a newline-separated text blob and computes two numeric
//! answers.  `day1` groups integers between blank lines and selects the
//! largest totals, `day2` scores rounds of a cyclic three-move game, and
//! `day3` finds the one item common to parts of each line and sums fixed
//! per-item priorities.  All parsing and arithmetic is verified; the
//! contracts state exactly which inputs are rejected and with which error.

pub mod day1;
pub mod day2;
pub mod day3;
pub mod error;
pub mod lines;
pub mod sums;
pub mod topk;
