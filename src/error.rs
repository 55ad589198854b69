//! Why a conversion pass fails.
use vstd::prelude::*;

verus! {

/// The kind of a conversion failure. Every one of them ends the pass.
#[derive(Clone, Copy, Debug, PartialEq, Eq, Structural)]
pub enum ErrorKind {
    /// A node kind that has no lowering rule, or a struct, union or enum
    /// reached again through its own scope or generic arguments.
    UnsupportedNodeKind,
    /// An enum whose representation attribute is not recognised, whose values
    /// do not fit it, or with a variant that mixes named and positional fields.
    InconsistentEnumRepresentation,
    /// A chain of nested types deeper than the configured guard, as a cycle
    /// of references that passes through no struct, union or enum makes.
    UnboundedRecursionDepth,
    /// Two different types in one scope whose sanitized names are equal.
    NameCollisionInvariantViolation,
}

/// A conversion failure and the node that caused it.
#[derive(Clone, Copy, Debug, PartialEq, Eq, Structural)]
pub struct ConvError {
    pub kind: ErrorKind,
    pub node: usize,
}

} // verus!
