//! The failure modes shared by the puzzles.
//!
//! Every error is returned to the immediate caller and propagates to the
//! top-level runner; no puzzle recovers from a malformed line.

use vstd::prelude::*;

verus! {

/// Why a puzzle rejected its input.
pub enum Error {
    /// A malformed line: wrong length, an unrecognised token, a missing
    /// token, or a number too large for the machine word.  Carries the
    /// offending line.
    Parse(String),
    /// A required set intersection held no element.
    EmptyIntersection,
    /// A required set intersection held more than one element.
    AmbiguousIntersection,
    /// A character outside the recognised alphabet.  Carries the character.
    Priority(char),
    /// A sum of well-formed values exceeded the machine word.
    Overflow,
}

impl Error {
    /// A short human-readable description of the failure.
    pub fn describe(&self) -> (r: &'static str)
        ensures
            r@.len() > 0,
    {
        let s = match self {
            Error::Parse(_) => "malformed input line",
            Error::EmptyIntersection => "no common item found",
            Error::AmbiguousIntersection => "more than one common item found",
            Error::Priority(_) => "no priority for item type",
            Error::Overflow => "total does not fit in a machine word",
        };
        proof {
            reveal_strlit("malformed input line");
            reveal_strlit("no common item found");
            reveal_strlit("more than one common item found");
            reveal_strlit("no priority for item type");
            reveal_strlit("total does not fit in a machine word");
        }
        s
    }
}

} // verus!
