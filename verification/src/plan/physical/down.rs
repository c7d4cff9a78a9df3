//! Depth gating of downward moves from an open parent.

use vstd::prelude::*;

verus! {

/// How far a downward axis may reach from an open parent.
#[derive(Debug, Clone, Copy, PartialEq, Eq, Structural)]
pub enum DownExtent {
    /// Immediate children only: `child_depth == parent_depth + 1`.
    Child,
    /// Proper descendants: `child_depth > parent_depth`.
    Descendant,
}

/// Whether an element at `child_depth` is reached from a parent at `parent_depth`.
pub open spec fn spec_down_ok(extent: DownExtent, parent_depth: int, child_depth: int) -> bool {
    match extent {
        DownExtent::Child => child_depth == parent_depth + 1,
        DownExtent::Descendant => child_depth > parent_depth,
    }
}

/// Whether a matched element at `child_depth` lies on this down-move from an open parent
/// at `parent_depth`.
pub fn down_ok(extent: DownExtent, parent_depth: u32, child_depth: u32) -> (r: bool)
    ensures
        r == spec_down_ok(extent, parent_depth as int, child_depth as int),
{
    match extent {
        DownExtent::Child => parent_depth < child_depth && child_depth - parent_depth == 1,
        DownExtent::Descendant => child_depth > parent_depth,
    }
}

/// A child move is a descendant move: whatever `Child` admits, `Descendant` admits.
pub proof fn lemma_child_within_descendant(parent_depth: int, child_depth: int)
    requires
        spec_down_ok(DownExtent::Child, parent_depth, child_depth),
    ensures
        spec_down_ok(DownExtent::Descendant, parent_depth, child_depth),
{
}

} // verus!
