//! The milestones by which passes are ordered.
use vstd::prelude::*;

verus! {

/// A milestone that a pass reaches or relies on.
///
/// Hosts make these part of their own capability type.
#[derive(Debug, Clone, Copy, PartialEq, Eq, Hash, Structural)]
pub enum DeobfuscationCapability {
    /// Static field values have been resolved to constants.
    ResolvedStaticFields,
    /// Encrypted strings have been decrypted.
    DecryptedStrings,
    /// Flattened control flow has been restored to its natural structure.
    RestoredControlFlow,
    /// Opaque predicates have been simplified or removed.
    SimplifiedPredicates,
    /// Proxy and virtual calls have been turned into direct calls.
    DevirtualizedCalls,
    /// Small or pure methods have been inlined where they are called.
    InlinedMethods,
}

} // verus!
