//! What the cheerio-like path constructors reach, stated over the document's links: a
//! filter keeps the destinations that pass its test, a closure of a single-step axis
//! (`next_all`, `prev_all`, `parents`) reaches every node some number of steps along
//! the axis, `siblings` both ways, `closest` the nearest ancestor-or-self passing its test.

use vstd::prelude::*;
use crate::plan::representation::path::{compose, spec_filter, spec_plus, NodeTest, Path};
use crate::plan::representation::path_extension::{parent_axis, prev_axis};
use super::dom::{child_linked, parent_linked, spec_children_ids, spec_parent, tree_wf, NodeM};
use super::path::{is_single_step, nth_step, reaches, reaches_in, repetitions, single_step, test_at};
use super::until::{lemma_axis_reaches, lemma_prepend_step, lemma_split_step};

verus! {

/// A filter reaches exactly the destinations of its path that pass its test.
pub proof fn law_filter(d: Seq<NodeM>, p: Path, t: NodeTest, x: int, y: int, ans: Seq<(Seq<char>, Seq<bool>)>)
    ensures
        reaches(d, spec_filter(p, t), false, x, y, ans) <==> reaches(d, p, false, x, y, ans) && test_at(t, y, ans),
{
    if !(t is True) {
        let tp = Path::Test(t);
        if reaches(d, spec_filter(p, t), false, x, y, ans) {
            let z = choose|z: int| #[trigger] super::path::via(z) && reaches(d, p, false, x, z, ans) && reaches(d, tp, false, z, y, ans);
        }
        if reaches(d, p, false, x, y, ans) && test_at(t, y, ans) {
            assert(super::path::via(y));
            assert(reaches(d, tp, false, y, y, ans));
        }
    }
}

/// The closure `p+` reaches exactly what one or more repetitions of `p` reach.
pub proof fn law_plus(d: Seq<NodeM>, p: Path, x: int, y: int, ans: Seq<(Seq<char>, Seq<bool>)>)
    ensures
        reaches(d, spec_plus(p), false, x, y, ans) <==> exists|k: nat| k >= 1 && #[trigger] reaches_in(d, p, false, x, y, k, ans),
{
    let star = Path::Star(Box::new(p));
    if reaches(d, spec_plus(p), false, x, y, ans) {
        let z = choose|z: int| #[trigger] super::path::via(z) && reaches(d, p, false, x, z, ans) && reaches(d, star, false, z, y, ans);
        let m = choose|m: nat| #[trigger] repetitions(m) && reaches_in(d, p, false, z, y, m, ans);
        lemma_prepend_step(d, p, x, z, y, m, ans);
    }
    if exists|k: nat| k >= 1 && #[trigger] reaches_in(d, p, false, x, y, k, ans) {
        let k = choose|k: nat| k >= 1 && #[trigger] reaches_in(d, p, false, x, y, k, ans);
        lemma_split_step(d, p, x, y, k, ans);
        let z = choose|z: int| #[trigger] super::path::via(z) && reaches(d, p, false, x, z, ans) && reaches_in(d, p, false, z, y, (k - 1) as nat, ans);
        assert(repetitions((k - 1) as nat));
        assert(reaches(d, star, false, z, y, ans));
    }
}

/// `k` steps of a single-step axis reach exactly the node `k` steps along it.
proof fn lemma_axis_steps(d: Seq<NodeM>, axis: Path, x: int, y: int, k: nat, ans: Seq<(Seq<char>, Seq<bool>)>)
    requires
        is_single_step(axis, false),
        0 <= x <= usize::MAX,
    ensures
        reaches_in(d, axis, false, x, y, k, ans) <==> (nth_step(d, axis, false, x, k) matches Some(z) && z as int == y),
    decreases k,
{
    if k > 0 {
        let km = (k - 1) as nat;
        if reaches_in(d, axis, false, x, y, k, ans) {
            let z = choose|z: int| #[trigger] super::path::via(z) && reaches_in(d, axis, false, x, z, km, ans) && reaches(d, axis, false, z, y, ans);
            lemma_axis_steps(d, axis, x, z, km, ans);
            lemma_axis_reaches(d, axis, z, y, ans);
        }
        if nth_step(d, axis, false, x, k) matches Some(c) && c as int == y {
            let w = nth_step(d, axis, false, x, km)->0;
            lemma_axis_steps(d, axis, x, w as int, km, ans);
            lemma_axis_reaches(d, axis, w as int, y, ans);
            assert(super::path::via(w as int));
        }
    }
}

/// The closure `axis+` of a single-step axis reaches exactly the nodes one or more steps
/// along it.
pub proof fn law_along(d: Seq<NodeM>, axis: Path, x: int, y: int, ans: Seq<(Seq<char>, Seq<bool>)>)
    requires
        is_single_step(axis, false),
        0 <= x <= usize::MAX,
    ensures
        reaches(d, spec_plus(axis), false, x, y, ans) <==> exists|k: nat|
            k >= 1 && (#[trigger] nth_step(d, axis, false, x, k) matches Some(z) && z as int == y),
{
    let star = Path::Star(Box::new(axis));
    if reaches(d, spec_plus(axis), false, x, y, ans) {
        let z = choose|z: int| #[trigger] super::path::via(z) && reaches(d, axis, false, x, z, ans) && reaches(d, star, false, z, y, ans);
        let m = choose|m: nat| #[trigger] repetitions(m) && reaches_in(d, axis, false, z, y, m, ans);
        lemma_prepend_step(d, axis, x, z, y, m, ans);
        lemma_axis_steps(d, axis, x, y, m + 1, ans);
        assert(nth_step(d, axis, false, x, m + 1) matches Some(w) && w as int == y);
    }
    if exists|k: nat| k >= 1 && (#[trigger] nth_step(d, axis, false, x, k) matches Some(z) && z as int == y) {
        let k = choose|k: nat| k >= 1 && (#[trigger] nth_step(d, axis, false, x, k) matches Some(z) && z as int == y);
        lemma_axis_steps(d, axis, x, y, k, ans);
        lemma_split_step(d, axis, x, y, k, ans);
        let z = choose|z: int| #[trigger] super::path::via(z) && reaches(d, axis, false, x, z, ans) && reaches_in(d, axis, false, z, y, (k - 1) as nat, ans);
        assert(repetitions((k - 1) as nat));
        assert(reaches(d, star, false, z, y, ans));
    }
}

/// `next_all(t)`, `prev_all(t)` and `parents(t)` reach exactly the nodes one or more
/// steps along their axis (next sibling, previous sibling, parent) that pass `t`.
pub proof fn law_all_along(d: Seq<NodeM>, axis: Path, t: NodeTest, x: int, y: int, ans: Seq<(Seq<char>, Seq<bool>)>)
    requires
        axis == Path::Next || axis == prev_axis() || axis == parent_axis(),
        0 <= x <= usize::MAX,
    ensures
        reaches(d, spec_filter(spec_plus(axis), t), false, x, y, ans) <==> {
            &&& exists|k: nat| k >= 1 && (#[trigger] nth_step(d, axis, false, x, k) matches Some(z) && z as int == y)
            &&& test_at(t, y, ans)
        },
{
    law_filter(d, spec_plus(axis), t, x, y, ans);
    law_along(d, axis, x, y, ans);
}

/// `siblings(t)` reaches exactly the nodes one or more sibling steps from `x`, forward or
/// backward, that pass `t`.
pub proof fn law_siblings(d: Seq<NodeM>, t: NodeTest, x: int, y: int, ans: Seq<(Seq<char>, Seq<bool>)>)
    requires
        0 <= x <= usize::MAX,
    ensures
        reaches(
            d,
            spec_filter(Path::Union(Box::new(spec_plus(Path::Next)), Box::new(spec_plus(prev_axis()))), t),
            false,
            x,
            y,
            ans,
        ) <==> {
            &&& (exists|k: nat| k >= 1 && (#[trigger] nth_step(d, Path::Next, false, x, k) matches Some(z) && z as int == y))
                || (exists|k: nat| k >= 1 && (#[trigger] nth_step(d, prev_axis(), false, x, k) matches Some(z) && z as int == y))
            &&& test_at(t, y, ans)
        },
{
    law_filter(d, Path::Union(Box::new(spec_plus(Path::Next)), Box::new(spec_plus(prev_axis()))), t, x, y, ans);
    law_along(d, Path::Next, x, y, ans);
    law_along(d, prev_axis(), x, y, ans);
}

/// One climbing step of `closest`: from a node that fails `t` to its parent.
proof fn lemma_climb_step(d: Seq<NodeM>, t: NodeTest, a: int, b: int, ans: Seq<(Seq<char>, Seq<bool>)>)
    ensures
        reaches(d, compose(Path::Test(NodeTest::Not(Box::new(t))), parent_axis()), false, a, b, ans) <==> {
            &&& !test_at(t, a, ans)
            &&& single_step(d, parent_axis(), false, a) matches Some(c) && c as int == b
        },
{
    let tp = Path::Test(NodeTest::Not(Box::new(t)));
    lemma_axis_reaches(d, parent_axis(), a, b, ans);
    if reaches(d, compose(tp, parent_axis()), false, a, b, ans) {
        let z = choose|z: int| #[trigger] super::path::via(z) && reaches(d, tp, false, a, z, ans) && reaches(d, parent_axis(), false, z, b, ans);
    }
    if !test_at(t, a, ans) && (single_step(d, parent_axis(), false, a) matches Some(c) && c as int == b) {
        assert(super::path::via(a));
        assert(reaches(d, tp, false, a, a, ans));
    }
}

/// `k` climbing steps reach exactly the node `k` parents up, when none of the nodes they
/// leave passes `t`.
proof fn lemma_climb_steps(d: Seq<NodeM>, t: NodeTest, x: int, y: int, k: nat, ans: Seq<(Seq<char>, Seq<bool>)>)
    requires
        0 <= x <= usize::MAX,
    ensures
        reaches_in(d, compose(Path::Test(NodeTest::Not(Box::new(t))), parent_axis()), false, x, y, k, ans) <==> {
            &&& nth_step(d, parent_axis(), false, x, k) matches Some(z) && z as int == y
            &&& forall|j: nat| j < k ==> ((#[trigger] nth_step(d, parent_axis(), false, x, j)) matches Some(w) && !test_at(t, w as int, ans))
        },
    decreases k,
{
    let climb = compose(Path::Test(NodeTest::Not(Box::new(t))), parent_axis());
    if k > 0 {
        let km = (k - 1) as nat;
        if reaches_in(d, climb, false, x, y, k, ans) {
            let z = choose|z: int| #[trigger] super::path::via(z) && reaches_in(d, climb, false, x, z, km, ans) && reaches(d, climb, false, z, y, ans);
            lemma_climb_steps(d, t, x, z, km, ans);
            lemma_climb_step(d, t, z, y, ans);
            assert forall|j: nat| j < k implies ((#[trigger] nth_step(d, parent_axis(), false, x, j)) matches Some(w) && !test_at(t, w as int, ans)) by {
                if j < km {
                    assert(nth_step(d, parent_axis(), false, x, j) matches Some(w) && !test_at(t, w as int, ans));
                }
            }
        }
        if (nth_step(d, parent_axis(), false, x, k) matches Some(c) && c as int == y) && (forall|j: nat| j < k ==> ((#[trigger] nth_step(d, parent_axis(), false, x, j)) matches Some(w) && !test_at(t, w as int, ans))) {
            let w = nth_step(d, parent_axis(), false, x, km)->0;
            assert(nth_step(d, parent_axis(), false, x, km) matches Some(w2) && !test_at(t, w2 as int, ans));
            assert forall|j: nat| j < km implies ((#[trigger] nth_step(d, parent_axis(), false, x, j)) matches Some(w3) && !test_at(t, w3 as int, ans)) by {
                assert(nth_step(d, parent_axis(), false, x, j) matches Some(w3) && !test_at(t, w3 as int, ans));
            }
            lemma_climb_steps(d, t, x, w as int, km, ans);
            lemma_climb_step(d, t, w as int, y, ans);
            assert(super::path::via(w as int));
        }
    }
}

/// `closest(t)` reaches exactly the nearest ancestor-or-self of `x` that passes `t`: the
/// node `k` parents up that passes `t` while none of the nodes below it on the way does.
pub proof fn law_closest(d: Seq<NodeM>, t: NodeTest, x: int, y: int, ans: Seq<(Seq<char>, Seq<bool>)>)
    requires
        0 <= x <= usize::MAX,
    ensures
        reaches(
            d,
            compose(Path::Star(Box::new(compose(Path::Test(NodeTest::Not(Box::new(t))), parent_axis()))), Path::Test(t)),
            false,
            x,
            y,
            ans,
        ) <==> exists|k: nat| {
            &&& #[trigger] nth_step(d, parent_axis(), false, x, k) matches Some(z) && z as int == y
            &&& test_at(t, y, ans)
            &&& forall|j: nat| j < k ==> ((#[trigger] nth_step(d, parent_axis(), false, x, j)) matches Some(w) && !test_at(t, w as int, ans))
        },
{
    let climb = compose(Path::Test(NodeTest::Not(Box::new(t))), parent_axis());
    let star = Path::Star(Box::new(climb));
    let tp = Path::Test(t);
    let p = compose(star, tp);
    if reaches(d, p, false, x, y, ans) {
        let z = choose|z: int| #[trigger] super::path::via(z) && reaches(d, star, false, x, z, ans) && reaches(d, tp, false, z, y, ans);
        let m = choose|m: nat| #[trigger] repetitions(m) && reaches_in(d, climb, false, x, z, m, ans);
        lemma_climb_steps(d, t, x, z, m, ans);
        assert(nth_step(d, parent_axis(), false, x, m) matches Some(w) && w as int == y);
    }
    if exists|k: nat| {
        &&& #[trigger] nth_step(d, parent_axis(), false, x, k) matches Some(z) && z as int == y
        &&& test_at(t, y, ans)
        &&& forall|j: nat| j < k ==> ((#[trigger] nth_step(d, parent_axis(), false, x, j)) matches Some(w) && !test_at(t, w as int, ans))
    } {
        let k = choose|k: nat| {
            &&& #[trigger] nth_step(d, parent_axis(), false, x, k) matches Some(z) && z as int == y
            &&& test_at(t, y, ans)
            &&& forall|j: nat| j < k ==> ((#[trigger] nth_step(d, parent_axis(), false, x, j)) matches Some(w) && !test_at(t, w as int, ans))
        };
        lemma_climb_steps(d, t, x, y, k, ans);
        assert(repetitions(k));
        assert(reaches(d, star, false, x, y, ans));
        assert(super::path::via(y));
        assert(reaches(d, tp, false, y, y, ans));
    }
}

/// A child step, in a well-formed tree, goes exactly to the nodes whose parent is the
/// source.
proof fn lemma_child_reaches(d: Seq<NodeM>, a: int, b: int, ans: Seq<(Seq<char>, Seq<bool>)>)
    requires
        tree_wf(d),
        d.len() <= usize::MAX,
        0 <= a < d.len(),
    ensures
        reaches(d, Path::Child, false, a, b, ans) <==> (0 < b < d.len() && spec_parent(d, b) == Some(a as usize)),
{
    let ids = spec_children_ids(d, a);
    if reaches(d, Path::Child, false, a, b, ans) {
        let w = choose|w: int| 0 <= w < ids.len() && ids[w].0 == b;
        assert(parent_linked(d, a, w));
        assert(ids[w] == crate::plan::representation::id::DomNodeId(d[a].children[w] as u64));
    }
    if 0 < b < d.len() && spec_parent(d, b) == Some(a as usize) {
        assert(child_linked(d, b));
        let w = d[b].index as int;
        assert(d[a].children[w] == b);
        assert(ids[w] == crate::plan::representation::id::DomNodeId(d[a].children[w] as u64));
        assert(ids[w].0 == b);
    }
}

/// Taking the first parent step first: `k` parent steps from `y` are `k - 1` parent
/// steps from `y`'s parent.
proof fn lemma_parent_shift(d: Seq<NodeM>, y: int, z: usize, k: nat)
    requires
        0 <= y <= usize::MAX,
        k >= 1,
        spec_parent(d, y) == Some(z),
    ensures
        nth_step(d, parent_axis(), false, y, k) == nth_step(d, parent_axis(), false, z as int, (k - 1) as nat),
    decreases k,
{
    assert(nth_step(d, parent_axis(), false, y, 0) == Some(y as usize));
    assert(nth_step(d, parent_axis(), false, z as int, 0) == Some(z));
    assert(single_step(d, parent_axis(), false, y) == spec_parent(d, y));
    if k > 1 {
        lemma_parent_shift(d, y, z, (k - 1) as nat);
        let w = nth_step(d, parent_axis(), false, z as int, (k - 2) as nat);
        assert(nth_step(d, parent_axis(), false, y, k) == match nth_step(d, parent_axis(), false, y, (k - 1) as nat) {
            Some(v) => single_step(d, parent_axis(), false, v as int),
            None => None,
        });
        assert(nth_step(d, parent_axis(), false, z as int, (k - 1) as nat) == match w {
            Some(v) => single_step(d, parent_axis(), false, v as int),
            None => None,
        });
    } else {
        assert(nth_step(d, parent_axis(), false, y, 1) == single_step(d, parent_axis(), false, y));
    }
}

/// Where `k` parent steps lead somewhere, so does the first.
proof fn lemma_parent_first(d: Seq<NodeM>, y: int, k: nat)
    requires
        0 <= y <= usize::MAX,
        k >= 1,
        nth_step(d, parent_axis(), false, y, k) is Some,
    ensures
        spec_parent(d, y) is Some,
    decreases k,
{
    assert(nth_step(d, parent_axis(), false, y, 0) == Some(y as usize));
    assert(single_step(d, parent_axis(), false, y) == spec_parent(d, y));
    if k > 1 {
        assert(nth_step(d, parent_axis(), false, y, (k - 1) as nat) is Some);
        lemma_parent_first(d, y, (k - 1) as nat);
    } else {
        assert(nth_step(d, parent_axis(), false, y, 1) == single_step(d, parent_axis(), false, y));
    }
}

/// `k` child steps from `x` reach exactly the nodes `y` of the tree that are `k` parent
/// steps below `x`.
proof fn lemma_child_steps(d: Seq<NodeM>, x: int, y: int, k: nat, ans: Seq<(Seq<char>, Seq<bool>)>)
    requires
        tree_wf(d),
        d.len() <= usize::MAX,
        0 <= x < d.len(),
    ensures
        reaches_in(d, Path::Child, false, x, y, k, ans) <==> (0 <= y < d.len() && nth_step(d, parent_axis(), false, y, k) == Some(x as usize)),
    decreases k,
{
    if k > 0 {
        let km = (k - 1) as nat;
        if reaches_in(d, Path::Child, false, x, y, k, ans) {
            let z = choose|z: int| #[trigger] super::path::via(z) && reaches_in(d, Path::Child, false, x, z, km, ans) && reaches(d, Path::Child, false, z, y, ans);
            lemma_child_steps(d, x, z, km, ans);
            lemma_child_reaches(d, z, y, ans);
            lemma_parent_shift(d, y, z as usize, k);
        }
        if 0 <= y < d.len() && nth_step(d, parent_axis(), false, y, k) == Some(x as usize) {
            lemma_parent_first(d, y, k);
            let z = spec_parent(d, y)->0;
            assert(y != 0);
            assert(child_linked(d, y));
            lemma_parent_shift(d, y, z, k);
            lemma_child_steps(d, x, z as int, km, ans);
            lemma_child_reaches(d, z as int, y, ans);
            assert(super::path::via(z as int));
        }
    }
}

/// `descendants()` reaches, in a well-formed tree, exactly the nodes of which `x` is an
/// ancestor: `x` is one or more parent steps up from them.
pub proof fn law_descendants(d: Seq<NodeM>, x: int, y: int, ans: Seq<(Seq<char>, Seq<bool>)>)
    requires
        tree_wf(d),
        d.len() <= usize::MAX,
        0 <= x < d.len(),
    ensures
        reaches(d, spec_plus(Path::Child), false, x, y, ans) <==> {
            &&& 0 <= y < d.len()
            &&& exists|k: nat| k >= 1 && #[trigger] nth_step(d, parent_axis(), false, y, k) == Some(x as usize)
        },
{
    law_plus(d, Path::Child, x, y, ans);
    if reaches(d, spec_plus(Path::Child), false, x, y, ans) {
        let k = choose|k: nat| k >= 1 && #[trigger] reaches_in(d, Path::Child, false, x, y, k, ans);
        lemma_child_steps(d, x, y, k, ans);
    }
    if 0 <= y < d.len() && exists|k: nat| k >= 1 && #[trigger] nth_step(d, parent_axis(), false, y, k) == Some(x as usize) {
        let k = choose|k: nat| k >= 1 && #[trigger] nth_step(d, parent_axis(), false, y, k) == Some(x as usize);
        lemma_child_steps(d, x, y, k, ans);
    }
}

/// `find(t)` reaches, in a well-formed tree, exactly the descendants of `x` that pass `t`.
pub proof fn law_find(d: Seq<NodeM>, t: NodeTest, x: int, y: int, ans: Seq<(Seq<char>, Seq<bool>)>)
    requires
        tree_wf(d),
        d.len() <= usize::MAX,
        0 <= x < d.len(),
    ensures
        reaches(d, spec_filter(spec_plus(Path::Child), t), false, x, y, ans) <==> {
            &&& 0 <= y < d.len()
            &&& exists|k: nat| k >= 1 && #[trigger] nth_step(d, parent_axis(), false, y, k) == Some(x as usize)
            &&& test_at(t, y, ans)
        },
{
    law_filter(d, spec_plus(Path::Child), t, x, y, ans);
    law_descendants(d, x, y, ans);
}

/// `children(t)` reaches, in a well-formed tree, exactly the nodes whose parent is `x`
/// that pass `t`.
pub proof fn law_children(d: Seq<NodeM>, t: NodeTest, x: int, y: int, ans: Seq<(Seq<char>, Seq<bool>)>)
    requires
        tree_wf(d),
        d.len() <= usize::MAX,
        0 <= x < d.len(),
    ensures
        reaches(d, spec_filter(Path::Child, t), false, x, y, ans) <==> {
            &&& 0 < y < d.len()
            &&& spec_parent(d, y) == Some(x as usize)
            &&& test_at(t, y, ans)
        },
{
    law_filter(d, Path::Child, t, x, y, ans);
    lemma_child_reaches(d, x, y, ans);
}

} // verus!
