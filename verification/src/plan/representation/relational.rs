//! Ordered-bag relational operators and the frozen plan graph.
//!
//! `Return` and `Sink` sit on the graph: they schedule observation, not document work.

use vstd::prelude::*;
use super::expr::Expr;
use super::id::{ColId, MonoidId, RelationId, SinkId};
use super::path::Path;

verus! {

/// Relational operator.
///
/// ```text
/// q ::= Root | Expand | Select | Project | UnionAll | DistinctBy | Fold | Take
/// ```
pub enum RelationalOperator {
    /// One row binding the synthetic document root.
    Root { output: ColId },
    /// Correlated path expand: for each input row, follow `path` from `from` into `to`.
    Expand { input: RelationId, from: ColId, to: ColId, path: Path },
    /// Stable subsequence where `predicate` is true.
    Select { input: RelationId, predicate: Expr },
    /// One output occurrence per input; the schema is exactly `outputs`.
    Project { input: RelationId, outputs: Vec<(ColId, Expr)> },
    /// Concatenation of members; keeps duplicates.
    UnionAll { members: Vec<RelationId> },
    /// First occurrence wins per key tuple.
    DistinctBy { input: RelationId, keys: Vec<ColId> },
    /// Global ordered fold of mapped row values (one output row).
    Fold { input: RelationId, map: Expr, monoid: MonoidId, output: ColId },
    /// Positional prefix of the ordered input.
    Take { input: RelationId, n: usize },
}

impl RelationalOperator {
    pub fn root(output: ColId) -> (r: RelationalOperator)
        ensures
            r == (RelationalOperator::Root { output }),
    {
        RelationalOperator::Root { output }
    }

    pub fn expand(input: RelationId, from: ColId, to: ColId, path: Path) -> (r: RelationalOperator)
        ensures
            r == (RelationalOperator::Expand { input, from, to, path }),
    {
        RelationalOperator::Expand { input, from, to, path }
    }

    pub fn select(input: RelationId, predicate: Expr) -> (r: RelationalOperator)
        ensures
            r == (RelationalOperator::Select { input, predicate }),
    {
        RelationalOperator::Select { input, predicate }
    }

    pub fn project(input: RelationId, outputs: Vec<(ColId, Expr)>) -> (r: RelationalOperator)
        ensures
            r == (RelationalOperator::Project { input, outputs }),
    {
        RelationalOperator::Project { input, outputs }
    }

    pub fn union_all(members: Vec<RelationId>) -> (r: RelationalOperator)
        ensures
            r == (RelationalOperator::UnionAll { members }),
    {
        RelationalOperator::UnionAll { members }
    }

    pub fn distinct_by(input: RelationId, keys: Vec<ColId>) -> (r: RelationalOperator)
        ensures
            r == (RelationalOperator::DistinctBy { input, keys }),
    {
        RelationalOperator::DistinctBy { input, keys }
    }

    pub fn fold(input: RelationId, map: Expr, monoid: MonoidId, output: ColId) -> (r: RelationalOperator)
        ensures
            r == (RelationalOperator::Fold { input, map, monoid, output }),
    {
        RelationalOperator::Fold { input, map, monoid, output }
    }

    pub fn take(input: RelationId, n: usize) -> (r: RelationalOperator)
        ensures
            r == (RelationalOperator::Take { input, n }),
    {
        RelationalOperator::Take { input, n }
    }
}

/// Materializes a plan-owned scalar or relation value.
pub struct Return {
    pub input: RelationId,
    pub value: Expr,
}

impl Return {
    pub fn new(input: RelationId, value: Expr) -> (r: Return)
        ensures
            r == (Return { input, value }),
    {
        Return { input, value }
    }
}

/// Runs a caller closure when `value` is ready (scheduling only).
pub struct Sink {
    pub input: RelationId,
    pub value: Expr,
    pub id: SinkId,
}

impl Sink {
    pub fn new(input: RelationId, value: Expr, id: SinkId) -> (r: Sink)
        ensures
            r == (Sink { input, value, id }),
    {
        Sink { input, value, id }
    }
}

/// Frozen logical plan graph: `relations[i]` is the node addressed by relation id `i`.
pub struct Graph {
    pub relations: Vec<RelationalOperator>,
    pub sinks: Vec<Sink>,
    /// `None` means `Return(())` (a sinks-only, unit plan).
    pub ret: Option<Return>,
}

impl Graph {
    pub fn new(relations: Vec<RelationalOperator>, sinks: Vec<Sink>, ret: Option<Return>) -> (r: Graph)
        ensures
            r == (Graph { relations, sinks, ret }),
    {
        Graph { relations, sinks, ret }
    }

    /// The relation node `id`.
    pub fn rel(&self, id: RelationId) -> (r: &RelationalOperator)
        requires
            id.0 < self.relations@.len(),
        ensures
            *r == self.relations@[id.0 as int],
    {
        let n = self.relations.len();
        let i = id.0 as usize;
        &self.relations[i]
    }

    /// The id that addresses `relations[index]`.
    pub fn relation_id(index: usize) -> (r: RelationId)
        ensures
            r.0 == index,
    {
        RelationId::new(index as u64)
    }
}

} // verus!
