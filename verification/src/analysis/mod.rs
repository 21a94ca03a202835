//! Analyses.
pub mod assignments;
pub mod cfg;
pub mod closure;
pub mod constants;
pub mod defuse;
pub mod dominance;
pub mod evaluator;
pub mod knowledge;
pub mod liveness;
pub mod looping;
pub mod loops;
pub mod meaning;
pub mod range;
pub mod soundness;
pub mod steps;
pub mod tightness;
