//! The ways a run of the graph, or one access to a value, can fail.

use vstd::prelude::*;

verus! {

/// Why a view of a node's value could not be handed out.
#[derive(Debug, PartialEq, Eq, Clone, Copy, Structural)]
pub enum ReceiveError {
    /// The value cannot be opened as the view that was asked for.
    Closed,
    /// No value is there.
    Empty,
    /// Another view of the value is outstanding and excludes this one.
    WouldBlock,
}

/// Why a run of the graph ended without a result.
#[derive(Debug, PartialEq, Eq, Clone, Copy, Structural)]
pub enum ExecutionError {
    /// The nodes cannot be put in an order that respects every edge.
    CyclicGraph,
    /// A value is not of the type that its handle claims.
    TypeMismatch,
    /// Two views of one value exclude each other.
    AccessConflict,
    /// A value that a task depends on is not there.
    MissingDependencyValue,
}

impl ExecutionError {
    /// What a failed access means for the run that needed it.
    pub open spec fn of(e: ReceiveError) -> ExecutionError {
        match e {
            ReceiveError::Closed => ExecutionError::TypeMismatch,
            ReceiveError::Empty => ExecutionError::MissingDependencyValue,
            ReceiveError::WouldBlock => ExecutionError::AccessConflict,
        }
    }

    pub fn from_receive(e: ReceiveError) -> (r: ExecutionError)
        ensures
            r == Self::of(e),
    {
        match e {
            ReceiveError::Closed => ExecutionError::TypeMismatch,
            ReceiveError::Empty => ExecutionError::MissingDependencyValue,
            ReceiveError::WouldBlock => ExecutionError::AccessConflict,
        }
    }
}

} // verus!
