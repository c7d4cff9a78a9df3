//! What the "until" paths (`next_until`, `prev_until`, `parents_until`) reach: the nodes
//! along their axis, from the first step on, up to but not including the first node that
//! passes the stop test.

use vstd::prelude::*;
use crate::plan::representation::path::{compose, NodeTest, Path};
use crate::plan::representation::path_extension::spec_until;
use super::dom::NodeM;
use super::path::{
    basic_dests, has_id, is_basic, is_converse_basic, is_single_step, nth_step, opt_ids, reaches, reaches_in,
    repetitions, single_step, test_at,
};

verus! {

/// The steps `1..=k` along `axis` from `x` all lead somewhere, and no node they lead to
/// passes `stop`.
pub open spec fn clear_steps(d: Seq<NodeM>, axis: Path, stop: NodeTest, x: int, k: nat, ans: Seq<(Seq<char>, Seq<bool>)>) -> bool {
    forall|j: nat| 1 <= j <= k ==> ((#[trigger] nth_step(d, axis, false, x, j)) matches Some(w) && !test_at(stop, w as int, ans))
}

/// A single axis step reaches exactly the node it leads to.
pub proof fn lemma_axis_reaches(d: Seq<NodeM>, axis: Path, a: int, z: int, ans: Seq<(Seq<char>, Seq<bool>)>)
    requires
        is_single_step(axis, false),
    ensures
        reaches(d, axis, false, a, z, ans) <==> (single_step(d, axis, false, a) matches Some(c) && c as int == z),
{
    super::path::lemma_single_step_dests(d, axis, false, a);
    let o = opt_ids(single_step(d, axis, false, a));
    if let Some(c) = single_step(d, axis, false, a) {
        assert(o[0].0 == c);
    }
    if is_basic(axis) {
        assert(reaches(d, axis, false, a, z, ans) == has_id(basic_dests(d, axis, a, false), z));
    } else {
        assert(is_converse_basic(axis));
        let inner = *axis->Converse_0;
        assert(reaches(d, axis, false, a, z, ans) == reaches(d, inner, true, a, z, ans));
        assert(reaches(d, inner, true, a, z, ans) == has_id(basic_dests(d, inner, a, true), z));
    }
}

/// One step of an until path: an axis step to a node that fails `stop`.
proof fn lemma_until_step(d: Seq<NodeM>, axis: Path, stop: NodeTest, a: int, b: int, ans: Seq<(Seq<char>, Seq<bool>)>)
    requires
        is_single_step(axis, false),
    ensures
        reaches(d, compose(axis, Path::Test(NodeTest::Not(Box::new(stop)))), false, a, b, ans) <==> (single_step(
            d,
            axis,
            false,
            a,
        ) matches Some(c) && c as int == b && !test_at(stop, b, ans)),
{
    let t = Path::Test(NodeTest::Not(Box::new(stop)));
    let step = compose(axis, t);
    lemma_axis_reaches(d, axis, a, b, ans);
    if reaches(d, step, false, a, b, ans) {
        let z = choose|z: int| #[trigger] super::path::via(z) && reaches(d, axis, false, a, z, ans) && reaches(d, t, false, z, b, ans);
        lemma_axis_reaches(d, axis, a, z, ans);
    }
    if single_step(d, axis, false, a) matches Some(c) && c as int == b && !test_at(stop, b, ans) {
        assert(super::path::via(b));
        assert(reaches(d, t, false, b, b, ans));
    }
}

/// `k` until steps from `x` reach exactly the node `k` axis steps away, when none of the
/// nodes those steps lead to passes `stop`.
proof fn lemma_until_steps(d: Seq<NodeM>, axis: Path, stop: NodeTest, x: int, y: int, k: nat, ans: Seq<(Seq<char>, Seq<bool>)>)
    requires
        is_single_step(axis, false),
        0 <= x <= usize::MAX,
    ensures
        reaches_in(d, compose(axis, Path::Test(NodeTest::Not(Box::new(stop)))), false, x, y, k, ans) <==> {
            &&& nth_step(d, axis, false, x, k) matches Some(z) && z as int == y
            &&& clear_steps(d, axis, stop, x, k, ans)
        },
    decreases k,
{
    let step = compose(axis, Path::Test(NodeTest::Not(Box::new(stop))));
    if k > 0 {
        let km = (k - 1) as nat;
        if reaches_in(d, step, false, x, y, k, ans) {
            let z = choose|z: int| #[trigger] super::path::via(z) && reaches_in(d, step, false, x, z, km, ans) && reaches(d, step, false, z, y, ans);
            lemma_until_steps(d, axis, stop, x, z, km, ans);
            lemma_until_step(d, axis, stop, z, y, ans);
            assert forall|j: nat| 1 <= j <= k implies ((#[trigger] nth_step(d, axis, false, x, j)) matches Some(w) && !test_at(stop, w as int, ans)) by {
                if j < k {
                    assert(nth_step(d, axis, false, x, j) matches Some(w) && !test_at(stop, w as int, ans));
                }
            }
        }
        if nth_step(d, axis, false, x, k) matches Some(c) && c as int == y && clear_steps(d, axis, stop, x, k, ans) {
            let w = nth_step(d, axis, false, x, km)->0;
            assert(nth_step(d, axis, false, x, km) is Some);
            assert(clear_steps(d, axis, stop, x, km, ans)) by {
                assert forall|j: nat| 1 <= j <= km implies ((#[trigger] nth_step(d, axis, false, x, j)) matches Some(w) && !test_at(stop, w as int, ans)) by {
                    assert(nth_step(d, axis, false, x, j) matches Some(w) && !test_at(stop, w as int, ans));
                }
            }
            lemma_until_steps(d, axis, stop, x, w as int, km, ans);
            assert(nth_step(d, axis, false, x, k) matches Some(w2) && !test_at(stop, w2 as int, ans));
            lemma_until_step(d, axis, stop, w as int, y, ans);
            assert(super::path::via(w as int));
        }
    }
}

/// One step followed by `m` steps is `m + 1` steps.
pub proof fn lemma_prepend_step(d: Seq<NodeM>, q: Path, x: int, z: int, y: int, m: nat, ans: Seq<(Seq<char>, Seq<bool>)>)
    requires
        reaches(d, q, false, x, z, ans),
        reaches_in(d, q, false, z, y, m, ans),
    ensures
        reaches_in(d, q, false, x, y, m + 1, ans),
    decreases m,
{
    if m == 0 {
        assert(super::path::via(x));
        assert(reaches_in(d, q, false, x, x, 0, ans));
    } else {
        let w = choose|w: int| #[trigger] super::path::via(w) && reaches_in(d, q, false, z, w, (m - 1) as nat, ans) && reaches(d, q, false, w, y, ans);
        lemma_prepend_step(d, q, x, z, w, (m - 1) as nat, ans);
        assert(super::path::via(w));
    }
}

/// `k >= 1` steps are one step followed by `k - 1` steps.
pub proof fn lemma_split_step(d: Seq<NodeM>, q: Path, x: int, y: int, k: nat, ans: Seq<(Seq<char>, Seq<bool>)>)
    requires
        k >= 1,
        reaches_in(d, q, false, x, y, k, ans),
    ensures
        exists|z: int| #[trigger] super::path::via(z) && reaches(d, q, false, x, z, ans) && reaches_in(d, q, false, z, y, (k - 1) as nat, ans),
    decreases k,
{
    let w = choose|w: int| #[trigger] super::path::via(w) && reaches_in(d, q, false, x, w, (k - 1) as nat, ans) && reaches(d, q, false, w, y, ans);
    if k == 1 {
        assert(w == x);
        assert(super::path::via(y));
        assert(reaches_in(d, q, false, y, y, 0, ans));
    } else {
        lemma_split_step(d, q, x, w, (k - 1) as nat, ans);
        let z = choose|z: int| #[trigger] super::path::via(z) && reaches(d, q, false, x, z, ans) && reaches_in(d, q, false, z, w, (k - 2) as nat, ans);
        assert(super::path::via(w));
        assert(reaches_in(d, q, false, z, y, (k - 1) as nat, ans));
    }
}

/// An until path along a single-step axis (`next_until`, `prev_until`, `parents_until`)
/// reaches `y` from `x` exactly when `y` is some `k >= 1` steps along the axis from `x`
/// and none of the nodes from the first step up to `y` itself passes `stop`: every node
/// along the axis before the first one that passes `stop`, which is left out.
pub proof fn law_until(d: Seq<NodeM>, axis: Path, stop: NodeTest, x: int, y: int, ans: Seq<(Seq<char>, Seq<bool>)>)
    requires
        is_single_step(axis, false),
        0 <= x <= usize::MAX,
    ensures
        reaches(d, spec_until(axis, stop), false, x, y, ans) <==> exists|k: nat| {
            &&& k >= 1
            &&& #[trigger] nth_step(d, axis, false, x, k) matches Some(z) && z as int == y
            &&& clear_steps(d, axis, stop, x, k, ans)
        },
{
    let step = compose(axis, Path::Test(NodeTest::Not(Box::new(stop))));
    let star = Path::Star(Box::new(step));
    assert(spec_until(axis, stop) == compose(step, star));
    if reaches(d, spec_until(axis, stop), false, x, y, ans) {
        let z = choose|z: int| #[trigger] super::path::via(z) && reaches(d, step, false, x, z, ans) && reaches(d, star, false, z, y, ans);
        let m = choose|m: nat| #[trigger] repetitions(m) && reaches_in(d, step, false, z, y, m, ans);
        lemma_prepend_step(d, step, x, z, y, m, ans);
        lemma_until_steps(d, axis, stop, x, y, m + 1, ans);
        assert(nth_step(d, axis, false, x, m + 1) matches Some(w) && w as int == y);
    }
    if exists|k: nat| {
        &&& k >= 1
        &&& #[trigger] nth_step(d, axis, false, x, k) matches Some(z) && z as int == y
        &&& clear_steps(d, axis, stop, x, k, ans)
    } {
        let k = choose|k: nat| {
            &&& k >= 1
            &&& #[trigger] nth_step(d, axis, false, x, k) matches Some(z) && z as int == y
            &&& clear_steps(d, axis, stop, x, k, ans)
        };
        lemma_until_steps(d, axis, stop, x, y, k, ans);
        lemma_split_step(d, step, x, y, k, ans);
        let z = choose|z: int| #[trigger] super::path::via(z) && reaches(d, step, false, x, z, ans) && reaches_in(d, step, false, z, y, (k - 1) as nat, ans);
        assert(repetitions((k - 1) as nat));
        assert(reaches(d, star, false, z, y, ans));
    }
}

} // verus!
