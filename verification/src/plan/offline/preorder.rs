//! Document order of a subtree: a node, then the subtree of each child in turn.

use vstd::prelude::*;
use crate::plan::representation::id::DomNodeId;
use super::dom::{child_linked, parent_linked, spec_parent, tree_wf, NodeM};
use super::path::{distinct_within, has_id};

verus! {

/// The subtree of `x` in document order: `x`, then the subtree of each child in turn.
pub open spec fn preorder(d: Seq<NodeM>, x: int) -> Seq<DomNodeId>
    decreases d.len() - x, 1int, 0int,
{
    if 0 <= x < d.len() {
        seq![DomNodeId(x as u64)] + preorder_from(d, x, 0)
    } else {
        Seq::empty()
    }
}

/// The subtrees of `x`'s children from the `j`-th on, in order.
pub open spec fn preorder_from(d: Seq<NodeM>, x: int, j: int) -> Seq<DomNodeId>
    decreases d.len() - x, 0int, d[x].children.len() - j,
{
    if 0 <= x < d.len() && 0 <= j < d[x].children.len() {
        let c = d[x].children[j] as int;
        (if x < c < d.len() {
            preorder(d, c)
        } else {
            Seq::empty()
        }) + preorder_from(d, x, j + 1)
    } else {
        Seq::empty()
    }
}

/// The node `k` parent links above `y`, if there is one.
pub open spec fn up(d: Seq<NodeM>, y: int, k: nat) -> Option<int>
    decreases k,
{
    if k == 0 {
        Some(y)
    } else {
        match up(d, y, (k - 1) as nat) {
            Some(z) => match spec_parent(d, z) {
                Some(p) => Some(p as int),
                None => None,
            },
            None => None,
        }
    }
}

pub proof fn lemma_has_id_concat(a: Seq<DomNodeId>, b: Seq<DomNodeId>, y: int)
    ensures
        has_id(a + b, y) == (has_id(a, y) || has_id(b, y)),
{
    let s = a + b;
    if has_id(s, y) {
        let w = choose|w: int| 0 <= w < s.len() && s[w].0 == y;
        if w < a.len() {
            assert(a[w] == s[w]);
        } else {
            assert(b[w - a.len()] == s[w]);
        }
    }
    if has_id(a, y) {
        let w = choose|w: int| 0 <= w < a.len() && a[w].0 == y;
        assert(s[w] == a[w]);
    }
    if has_id(b, y) {
        let w = choose|w: int| 0 <= w < b.len() && b[w].0 == y;
        assert(s[a.len() + w] == b[w]);
    }
}

/// The first child of the subtree's list from `j` on, when there is one, is a child of
/// `x` above it.
proof fn lemma_child_above(d: Seq<NodeM>, x: int, j: int)
    requires
        tree_wf(d),
        d.len() <= usize::MAX,
        0 <= x < d.len(),
        0 <= j < d[x].children.len(),
    ensures
        x < d[x].children[j] < d.len(),
        spec_parent(d, d[x].children[j] as int) == Some(x as usize),
{
    assert(parent_linked(d, x, j));
    let c = d[x].children[j] as int;
    assert(0 < c < d.len());
    assert(d[c].parent == Some(x as usize));
    assert(child_linked(d, c));
}

/// Every node of a subtree lies at or below its top, and its top is among its ancestors.
pub proof fn lemma_preorder_members(d: Seq<NodeM>, x: int, y: int)
    requires
        tree_wf(d),
        d.len() <= usize::MAX,
        0 <= x < d.len(),
        has_id(preorder(d, x), y),
    ensures
        x <= y < d.len(),
        exists|k: nat| #[trigger] up(d, y, k) == Some(x),
    decreases d.len() - x, 1int, 0int,
{
    let rest = preorder_from(d, x, 0);
    let head = seq![DomNodeId(x as u64)];
    lemma_has_id_concat(head, rest, y);
    if has_id(head, y) {
        let w = choose|w: int| 0 <= w < head.len() && #[trigger] head[w].0 == y;
        assert(up(d, y, 0) == Some(y));
    } else {
        lemma_preorder_from_members(d, x, 0, y);
        let i = choose|i: int| 0 <= i < d[x].children.len() && #[trigger] has_id(preorder(d, d[x].children[i] as int), y);
        let c = d[x].children[i] as int;
        lemma_child_above(d, x, i);
        lemma_preorder_members(d, c, y);
        let k = choose|k: nat| #[trigger] up(d, y, k) == Some(c);
        assert(up(d, y, k + 1) == Some(x));
    }
}

/// Every node of the subtrees from the `j`-th child on lies in one of those subtrees.
pub proof fn lemma_preorder_from_members(d: Seq<NodeM>, x: int, j: int, y: int)
    requires
        tree_wf(d),
        d.len() <= usize::MAX,
        0 <= x < d.len(),
        0 <= j,
        has_id(preorder_from(d, x, j), y),
    ensures
        exists|i: int| j <= i < d[x].children.len() && #[trigger] has_id(preorder(d, d[x].children[i] as int), y),
    decreases d[x].children.len() - j,
{
    if j < d[x].children.len() {
        let c = d[x].children[j] as int;
        lemma_child_above(d, x, j);
        lemma_has_id_concat(preorder(d, c), preorder_from(d, x, j + 1), y);
        if has_id(preorder(d, c), y) {
        } else {
            lemma_preorder_from_members(d, x, j + 1, y);
            let i = choose|i: int| j + 1 <= i < d[x].children.len() && #[trigger] has_id(preorder(d, d[x].children[i] as int), y);
        }
    }
}

/// Parent links lead to nodes of the document.
proof fn lemma_up_in_range(d: Seq<NodeM>, y: int, k: nat)
    requires
        tree_wf(d),
        d.len() <= usize::MAX,
        0 <= y < d.len(),
    ensures
        up(d, y, k) matches Some(z) ==> 0 <= z < d.len(),
    decreases k,
{
    if k > 0 {
        lemma_up_in_range(d, y, (k - 1) as nat);
        if let Some(z) = up(d, y, (k - 1) as nat) {
            if z > 0 {
                assert(child_linked(d, z));
            }
        }
    }
}

/// Going further up leads to smaller ids.
proof fn lemma_up_decreasing(d: Seq<NodeM>, y: int, a: nat, b: nat)
    requires
        tree_wf(d),
        d.len() <= usize::MAX,
        0 <= y < d.len(),
        a < b,
        up(d, y, a) is Some,
        up(d, y, b) is Some,
    ensures
        up(d, y, b).unwrap() < up(d, y, a).unwrap(),
    decreases b,
{
    let prev = up(d, y, (b - 1) as nat);
    assert(prev is Some);
    let z = prev.unwrap();
    lemma_up_in_range(d, y, (b - 1) as nat);
    if z > 0 {
        assert(child_linked(d, z));
    }
    if a < b - 1 {
        lemma_up_decreasing(d, y, a, (b - 1) as nat);
    }
}

/// A node lies below at most one child of a given node: two children above it are the
/// same child.
proof fn lemma_siblings_disjoint(d: Seq<NodeM>, x: int, y: int, i: int, j: int, a: nat, b: nat)
    requires
        tree_wf(d),
        d.len() <= usize::MAX,
        0 <= x < d.len(),
        0 <= y < d.len(),
        0 <= i < d[x].children.len(),
        0 <= j < d[x].children.len(),
        up(d, y, a) == Some(d[x].children[i] as int),
        up(d, y, b) == Some(d[x].children[j] as int),
    ensures
        i == j,
{
    lemma_child_above(d, x, i);
    lemma_child_above(d, x, j);
    assert(parent_linked(d, x, i));
    assert(parent_linked(d, x, j));
    if a == b {
        assert(d[x].children[i] == d[x].children[j]);
    } else if a < b {
        assert(up(d, y, a + 1) == Some(x));
        if b > a + 1 {
            lemma_up_decreasing(d, y, a + 1, b);
        }
    } else {
        assert(up(d, y, b + 1) == Some(x));
        if a > b + 1 {
            lemma_up_decreasing(d, y, b + 1, a);
        }
    }
}

proof fn lemma_distinct_concat(a: Seq<DomNodeId>, b: Seq<DomNodeId>, n: nat)
    requires
        distinct_within(a, n),
        distinct_within(b, n),
        forall|y: int| has_id(a, y) ==> !#[trigger] has_id(b, y),
    ensures
        distinct_within(a + b, n),
{
    let s = a + b;
    assert forall|i: int| 0 <= i < s.len() implies (#[trigger] s[i]).0 < n by {
        if i < a.len() {
            assert(s[i] == a[i]);
        } else {
            assert(s[i] == b[i - a.len()]);
        }
    }
    assert forall|i: int, j: int| 0 <= i < j < s.len() implies #[trigger] s[i] != #[trigger] s[j] by {
        if j < a.len() {
            assert(s[i] == a[i] && s[j] == a[j]);
        } else if i >= a.len() {
            assert(s[i] == b[i - a.len()] && s[j] == b[j - a.len()]);
        } else {
            assert(s[i] == a[i] && s[j] == b[j - a.len()]);
            if s[i] == s[j] {
                assert(has_id(a, a[i].0 as int));
                assert(has_id(b, a[i].0 as int));
            }
        }
    }
}

/// A subtree lists each of its nodes once.
pub proof fn lemma_preorder_distinct(d: Seq<NodeM>, x: int)
    requires
        tree_wf(d),
        d.len() <= usize::MAX,
        0 <= x < d.len(),
    ensures
        distinct_within(preorder(d, x), d.len()),
    decreases d.len() - x, 1int, 0int,
{
    let head = seq![DomNodeId(x as u64)];
    let rest = preorder_from(d, x, 0);
    lemma_preorder_from_distinct(d, x, 0);
    assert forall|y: int| has_id(head, y) implies !#[trigger] has_id(rest, y) by {
        let w = choose|w: int| 0 <= w < head.len() && #[trigger] head[w].0 == y;
        if has_id(rest, y) {
            lemma_preorder_from_members(d, x, 0, y);
            let i = choose|i: int| 0 <= i < d[x].children.len() && #[trigger] has_id(preorder(d, d[x].children[i] as int), y);
            lemma_child_above(d, x, i);
            lemma_preorder_members(d, d[x].children[i] as int, y);
        }
    }
    lemma_distinct_concat(head, rest, d.len());
}

/// The subtrees from the `j`-th child on list each of their nodes once.
pub proof fn lemma_preorder_from_distinct(d: Seq<NodeM>, x: int, j: int)
    requires
        tree_wf(d),
        d.len() <= usize::MAX,
        0 <= x < d.len(),
        0 <= j,
    ensures
        distinct_within(preorder_from(d, x, j), d.len()),
    decreases d.len() - x, 0int, d[x].children.len() - j,
{
    if j < d[x].children.len() {
        let c = d[x].children[j] as int;
        lemma_child_above(d, x, j);
        let p = preorder(d, c);
        let rest = preorder_from(d, x, j + 1);
        lemma_preorder_distinct(d, c);
        lemma_preorder_from_distinct(d, x, j + 1);
        assert forall|y: int| has_id(p, y) implies !#[trigger] has_id(rest, y) by {
            if has_id(rest, y) {
                lemma_preorder_members(d, c, y);
                let a = choose|k: nat| #[trigger] up(d, y, k) == Some(c);
                lemma_preorder_from_members(d, x, j + 1, y);
                let i = choose|i: int| j + 1 <= i < d[x].children.len() && #[trigger] has_id(preorder(d, d[x].children[i] as int), y);
                lemma_child_above(d, x, i);
                lemma_preorder_members(d, d[x].children[i] as int, y);
                let b = choose|k: nat| #[trigger] up(d, y, k) == Some(d[x].children[i] as int);
                lemma_siblings_disjoint(d, x, y, j, i, a, b);
            }
        }
        lemma_distinct_concat(p, rest, d.len());
    } else {
        assert(preorder_from(d, x, j) =~= Seq::<DomNodeId>::empty());
    }
}

/// The subtrees of the nodes of a stack, top (last) first.
pub open spec fn pending(d: Seq<NodeM>, stack: Seq<DomNodeId>) -> Seq<DomNodeId>
    decreases stack.len(),
{
    if stack.len() == 0 {
        Seq::empty()
    } else {
        preorder(d, stack.last().0 as int) + pending(d, stack.drop_last())
    }
}

/// Each node of a stack heads its own subtree among the pending ones.
pub proof fn lemma_stack_in_pending(d: Seq<NodeM>, stack: Seq<DomNodeId>, y: int)
    requires
        forall|i: int| 0 <= i < stack.len() ==> (#[trigger] stack[i]).0 < d.len(),
        has_id(stack, y),
    ensures
        has_id(pending(d, stack), y),
    decreases stack.len(),
{
    let top = stack.last();
    let rest = stack.drop_last();
    lemma_has_id_concat(preorder(d, top.0 as int), pending(d, rest), y);
    if top.0 == y {
        let p = preorder(d, top.0 as int);
        assert(p[0] == DomNodeId(top.0));
        assert(has_id(p, y));
    } else {
        let w = choose|w: int| 0 <= w < stack.len() && stack[w].0 == y;
        assert(w < stack.len() - 1);
        assert(rest[w] == stack[w]);
        lemma_stack_in_pending(d, rest, y);
    }
}

/// A child of `x` from the `j`-th on heads its subtree among the subtrees from `j` on.
pub proof fn lemma_child_in_from(d: Seq<NodeM>, x: int, j: int, i: int)
    requires
        tree_wf(d),
        d.len() <= usize::MAX,
        0 <= x < d.len(),
        0 <= j <= i < d[x].children.len(),
    ensures
        has_id(preorder_from(d, x, j), d[x].children[i] as int),
    decreases i - j,
{
    let c = d[x].children[j] as int;
    lemma_child_above(d, x, j);
    lemma_has_id_concat(preorder(d, c), preorder_from(d, x, j + 1), d[x].children[i] as int);
    if i == j {
        assert(preorder(d, c)[0] == DomNodeId(c as u64));
    } else {
        lemma_child_in_from(d, x, j + 1, i);
    }
}

/// The subtrees from the `j`-th child on are that child's subtree, then the rest.
pub proof fn lemma_from_step(d: Seq<NodeM>, x: int, j: int)
    requires
        tree_wf(d),
        d.len() <= usize::MAX,
        0 <= x < d.len(),
        0 <= j < d[x].children.len(),
    ensures
        preorder_from(d, x, j) == preorder(d, d[x].children[j] as int) + preorder_from(d, x, j + 1),
{
    lemma_child_above(d, x, j);
}

/// In a sequence without repeats, a node of one part is not in the other.
pub proof fn lemma_distinct_parts(a: Seq<DomNodeId>, b: Seq<DomNodeId>, n: nat, y: int)
    requires
        distinct_within(a + b, n),
        has_id(b, y),
    ensures
        !has_id(a, y),
{
    let s = a + b;
    if has_id(a, y) {
        let i = choose|i: int| 0 <= i < a.len() && a[i].0 == y;
        let j = choose|j: int| 0 <= j < b.len() && b[j].0 == y;
        assert(s[i] == a[i]);
        assert(s[a.len() + j] == b[j]);
    }
}

/// The subtrees from the `m`-th child on do not hold an earlier child.
pub proof fn lemma_earlier_child_not_later(d: Seq<NodeM>, x: int, m: int)
    requires
        tree_wf(d),
        d.len() <= usize::MAX,
        0 <= x < d.len(),
        0 < m <= d[x].children.len(),
    ensures
        !has_id(preorder_from(d, x, m), d[x].children[m - 1] as int),
{
    let c = d[x].children[m - 1] as int;
    lemma_child_above(d, x, m - 1);
    if has_id(preorder_from(d, x, m), c) {
        lemma_preorder_from_members(d, x, m, c);
        let i = choose|i: int| m <= i < d[x].children.len() && #[trigger] has_id(preorder(d, d[x].children[i] as int), c);
        lemma_child_above(d, x, i);
        lemma_preorder_members(d, d[x].children[i] as int, c);
        let b = choose|k: nat| #[trigger] up(d, c, k) == Some(d[x].children[i] as int);
        assert(up(d, c, 0) == Some(c));
        lemma_siblings_disjoint(d, x, c, m - 1, i, 0, b);
    }
}

} // verus!
