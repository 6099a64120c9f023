use vstd::prelude::*;

use crate::graph::TypeKey;

verus! {

/// Where a repository stands in its life: metadata is registered, then the
/// components are composed, started and finally stopped.
#[derive(PartialEq, Eq, Structural, Clone, Copy, Debug)]
pub enum Phase {
    Registering,
    Composed,
    Started,
    Stopped,
}

/// A stop hook that reported a failure during shutdown.
#[derive(Debug)]
pub struct StopFailure {
    pub type_id: TypeKey,
    pub cause: String,
}

/// Everything that can go wrong while registering, composing, looking up,
/// starting or stopping components.
#[derive(Debug)]
pub enum ContainerError {
    /// A second record was registered for this interface type.
    DuplicateRegistration(TypeKey),
    /// `requester` depends on `missing`, which has no record.
    MissingDependency { requester: TypeKey, missing: TypeKey },
    /// The nodes of a dependency cycle: each depends on the next, the last on the first.
    CircularDependency(Vec<TypeKey>),
    /// The constructor of this component failed.
    ConstructionFailed { type_id: TypeKey, cause: String },
    /// No component is stored under this interface type.
    NotFound(TypeKey),
    /// A component is stored, but its concrete kind is not the one asked for.
    DowncastMismatch { requested: u64, actual: u64 },
    /// The start hook of this component failed; the components started before it were stopped.
    StartFailed { type_id: TypeKey, cause: String },
    /// Every stop hook that failed during shutdown, in the order they ran.
    StopFailed(Vec<StopFailure>),
    /// The operation is not allowed in the phase the repository is in.
    LifecycleMisuse(Phase),
}

} // verus!
