//! Deterministic proof kernel for a strict subset of TSTP refutations.
use vstd::prelude::*;

pub mod verdict;
pub mod term;
pub mod subst;
pub mod unify;
pub mod clause;
pub mod alpha;
pub mod ac;
pub mod ac_match;
pub mod ac_rules;
pub mod ac_unify;
pub mod ac_inference;
pub mod instance;
pub mod measure;
pub mod inference;
pub mod subsume;
pub mod simplify;
pub mod factoring;
pub mod rewrite;
pub mod demodulation;
pub mod superposition;
pub mod equality;
pub mod dispatch;
pub mod sat_trace;
pub mod branch;
pub mod avatar_rules;
pub mod case_split;
pub mod sat_refutation;
pub mod sat_backed;
pub mod dag;
pub mod manifest;
pub mod text;
pub mod sat;
pub mod trace;
pub mod hex;
pub mod avatar;
pub mod rules;
pub mod skolem;
pub mod refutation;
pub mod signature;
pub mod identity;
pub mod skolemisation;

verus! {
}
