//! Compilation of host/path-scoped override rules into a read-only lookup
//! table, together with the small template-interpolation and regex-matching
//! utilities used by rewrite rules.

pub mod headers;
pub mod interpolation;
pub mod matching;
pub mod regex_match;
pub mod rewrite;
pub mod merge;
pub mod text;
pub mod walk;

use vstd::prelude::*;

verus! {

} // verus!
