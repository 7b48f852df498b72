//! Active learning of regular languages with residual automata.
//!
//! A learner questions a teacher about an unknown regular language, keeps the
//! answers in a pair of observation tables and builds from them a finite
//! automaton; the automaton can be made deterministic and rendered as a
//! regular expression.
use vstd::prelude::*;

pub mod automata;
pub mod languages;
pub mod mat;
pub mod nl;

verus! {

} // verus!
