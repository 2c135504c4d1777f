//! A small pattern matcher with literal characters, a single-character
//! wildcard and a "zero or more" repeat marker, together with a handful of
//! self-contained container utilities. Every function is verified against
//! the contract written next to it.

pub mod circular_buffer;
pub mod doubly_linked_list;
pub mod generational_arena;
pub mod letter_frequency;
pub mod matcher;
pub mod pattern;

use crate::matcher::{is_match_spec, lemma_empty_pattern};
use crate::pattern::{code_points, is_malformed, lemma_invalid_iff_malformed, parse};
use vstd::prelude::*;

verus! {

/// Returns true if the whole of `text` matches the whole of `pattern`.
///
/// In a pattern, `.` matches any single character and `*` allows zero or
/// more repetitions of the item before it; every other character matches
/// itself. Characters are Unicode scalar values, never bytes. A pattern
/// that breaks the grammar matches nothing.
pub fn is_match(pattern: &str, text: &str) -> (matched: bool)
    ensures
        matched == is_match_spec(pattern@, text@),
        is_malformed(pattern@) ==> !matched,
        pattern@.len() == 0 ==> matched == (text@.len() == 0),
{
    proof {
        lemma_invalid_iff_malformed(pattern@);
        if pattern@.len() == 0 {
            assert(pattern@ =~= Seq::<char>::empty());
            lemma_empty_pattern(text@);
        }
    }
    let parsed = parse(pattern);
    let chars = code_points(text);
    crate::matcher::matches(&parsed, chars.as_slice())
}

} // verus!
