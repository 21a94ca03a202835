//! Verified static-single-assignment optimizer.
pub mod analysis;
pub mod events;
pub mod ir;
pub mod passes;
pub mod pointer;
pub mod scheduling;
pub mod seqs;
pub mod target;
pub mod testing;
pub mod text;
pub mod world;

pub use crate::pointer::PointerSize;
