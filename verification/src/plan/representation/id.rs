//! Opaque identity keys for logical rows, columns and document nodes.

use vstd::prelude::*;

verus! {

/// ID of a DOM node.
///
/// Shared across engine chains: two chains matching the same element share one id.
/// Not an engine instance id (that is one chain's open match).
#[derive(Debug, Clone, Copy, PartialEq, Eq, Hash, PartialOrd, Ord, Structural)]
pub struct DomNodeId(pub u64);

impl DomNodeId {
    pub fn new(raw: u64) -> (r: DomNodeId)
        ensures
            r.0 == raw,
    {
        DomNodeId(raw)
    }

    pub fn raw(self) -> (r: u64)
        ensures
            r == self.0,
    {
        self.0
    }
}

/// One derivation of a logical row: keeps apart the child rows of two parents that
/// reach the same node.
#[derive(Debug, Clone, Copy, PartialEq, Eq, Hash, PartialOrd, Ord, Structural)]
pub struct OccurrenceId(pub u64);

impl OccurrenceId {
    pub fn new(raw: u64) -> (r: OccurrenceId)
        ensures
            r.0 == raw,
    {
        OccurrenceId(raw)
    }

    pub fn raw(self) -> (r: u64)
        ensures
            r == self.0,
    {
        self.0
    }
}

/// Observable result order, independent of when callbacks fire.
#[derive(Debug, Clone, Copy, PartialEq, Eq, Hash, PartialOrd, Ord, Structural)]
pub struct OrderKey(pub u64);

impl OrderKey {
    pub fn new(raw: u64) -> (r: OrderKey)
        ensures
            r.0 == raw,
    {
        OrderKey(raw)
    }

    pub fn raw(self) -> (r: u64)
        ensures
            r == self.0,
    {
        self.0
    }
}

/// Index of a relation node in a frozen [`super::relational::Graph`].
#[derive(Debug, Clone, Copy, PartialEq, Eq, Hash, PartialOrd, Ord, Structural)]
pub struct RelationId(pub u64);

impl RelationId {
    pub fn new(raw: u64) -> (r: RelationId)
        ensures
            r.0 == raw,
    {
        RelationId(raw)
    }

    pub fn raw(self) -> (r: u64)
        ensures
            r == self.0,
    {
        self.0
    }
}

/// Column binding within a plan (node scope or projected value); unique across a plan.
#[derive(Debug, Clone, Copy, PartialEq, Eq, Hash, PartialOrd, Ord, Structural)]
pub struct ColId(pub u64);

impl ColId {
    pub fn new(raw: u64) -> (r: ColId)
        ensures
            r.0 == raw,
    {
        ColId(raw)
    }

    pub fn raw(self) -> (r: u64)
        ensures
            r == self.0,
    {
        self.0
    }
}

/// Caller-registered pure function for an `Apply` expression.
#[derive(Debug, Clone, Copy, PartialEq, Eq, Hash, PartialOrd, Ord, Structural)]
pub struct ApplyId(pub u64);

impl ApplyId {
    pub fn new(raw: u64) -> (r: ApplyId)
        ensures
            r.0 == raw,
    {
        ApplyId(raw)
    }

    pub fn raw(self) -> (r: u64)
        ensures
            r == self.0,
    {
        self.0
    }
}

/// Plan parameter slot (a literal-like input supplied at run time).
#[derive(Debug, Clone, Copy, PartialEq, Eq, Hash, PartialOrd, Ord, Structural)]
pub struct ParamId(pub u64);

impl ParamId {
    pub fn new(raw: u64) -> (r: ParamId)
        ensures
            r.0 == raw,
    {
        ParamId(raw)
    }

    pub fn raw(self) -> (r: u64)
        ensures
            r == self.0,
    {
        self.0
    }
}

/// Caller-registered fold monoid `(identity, append)`.
#[derive(Debug, Clone, Copy, PartialEq, Eq, Hash, PartialOrd, Ord, Structural)]
pub struct MonoidId(pub u64);

impl MonoidId {
    pub fn new(raw: u64) -> (r: MonoidId)
        ensures
            r.0 == raw,
    {
        MonoidId(raw)
    }

    pub fn raw(self) -> (r: u64)
        ensures
            r == self.0,
    {
        self.0
    }
}

/// Caller closure scheduled by a sink (lives outside the plan).
#[derive(Debug, Clone, Copy, PartialEq, Eq, Hash, PartialOrd, Ord, Structural)]
pub struct SinkId(pub u64);

impl SinkId {
    pub fn new(raw: u64) -> (r: SinkId)
        ensures
            r.0 == raw,
    {
        SinkId(raw)
    }

    pub fn raw(self) -> (r: u64)
        ensures
            r == self.0,
    {
        self.0
    }
}

} // verus!
