//! Optimization passes.
pub mod algebraic;
pub mod bareness;
pub mod blockmerge;
pub mod coalescing;
pub mod controlflow;
pub mod copying;
pub mod correlation;
pub mod deadcode;
pub mod deciding;
pub mod funnelling;
pub mod gvn;
pub mod hoisting;
pub mod licm;
pub mod loopcanon;
pub mod mending;
pub mod numbering;
pub mod outcome;
pub mod predicates;
pub mod propagating;
pub mod ranges;
pub mod reaching;
pub mod reassociate;
pub mod rebuild;
pub mod reducing;
pub mod regrouping;
pub mod rerouting;
pub mod scheduling;
pub mod settling;
pub mod singling;
pub mod straightening;
pub mod strength;
pub mod sweeping;
pub mod threading;
pub mod utils;

pub use crate::passes::predicates::PredicateResult;
pub use crate::passes::scheduling::{
    AlgebraicSimplificationPass, BlockMergingPass, ControlFlowSimplificationPass, CopyPropagationPass, DeadCodeEliminationPass,
    DeadMethodEliminationPass, GlobalValueNumberingPass, JumpThreadingPass, LicmPass,
    LoopCanonicalizationPass, OpaquePredicatePass, ReassociationPass, StrengthReductionPass,
    ValueRangePropagationPass,
};
