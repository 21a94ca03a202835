//! The pipeline: which passes run when, and on which methods.
pub mod capability;
pub mod layers;
pub mod marks;
pub mod pass;
pub mod progress;
pub mod rounds;
pub mod run;
pub mod scheduler;
pub mod visit;

pub use crate::scheduling::capability::DeobfuscationCapability;
pub use crate::scheduling::pass::{ModificationScope, PassProfile, SsaPass, SsaPassHost};
pub use crate::scheduling::scheduler::{PassScheduler, PipelineConfig};
