//! Cheerio-like path constructors, built from the algebra in [`super::path`].

use vstd::prelude::*;
use super::path::{compose, spec_filter, spec_plus, NodeTest, Path};
use crate::plan::offline::axes::{law_all_along, law_children, law_closest, law_descendants, law_find, law_siblings};
use crate::plan::offline::dom::{spec_parent, tree_wf, NodeM};
use crate::plan::offline::path::{nth_step, reaches, test_at};
use crate::plan::offline::until::{clear_steps, law_until};

verus! {

pub open spec fn parent_axis() -> Path {
    Path::Converse(Box::new(Path::Child))
}

pub open spec fn prev_axis() -> Path {
    Path::Converse(Box::new(Path::Next))
}

/// `(axis ; [not stop])+`: steps along `axis` while `stop` fails, `stop` excluded.
pub open spec fn spec_until(axis: Path, stop: NodeTest) -> Path {
    spec_plus(compose(axis, Path::Test(NodeTest::Not(Box::new(stop)))))
}

impl Path {
    /// Children passing `test`.
    pub fn children(test: NodeTest) -> (r: Path)
        ensures
            r == spec_filter(Path::Child, test),
            forall|d: Seq<NodeM>, x: int, y: int, ans: Seq<(Seq<char>, Seq<bool>)>|
                tree_wf(d) && d.len() <= usize::MAX && 0 <= x < d.len() ==> (#[trigger] reaches(d, r, false, x, y, ans) <==> {
                    &&& 0 < y < d.len()
                    &&& spec_parent(d, y) == Some(x as usize)
                    &&& test_at(test, y, ans)
                }),
    {
        let r = Path::child_axis().filter(test);
        proof {
            assert forall|d: Seq<NodeM>, x: int, y: int, ans: Seq<(Seq<char>, Seq<bool>)>|
                tree_wf(d) && d.len() <= usize::MAX && 0 <= x < d.len() implies (#[trigger] reaches(d, r, false, x, y, ans) <==> {
                    &&& 0 < y < d.len()
                    &&& spec_parent(d, y) == Some(x as usize)
                    &&& test_at(test, y, ans)
                }) by {
                law_children(d, test, x, y, ans);
            }
        }
        r
    }

    /// All descendants.
    pub fn descendants() -> (r: Path)
        ensures
            r == spec_plus(Path::Child),
            forall|d: Seq<NodeM>, x: int, y: int, ans: Seq<(Seq<char>, Seq<bool>)>|
                tree_wf(d) && d.len() <= usize::MAX && 0 <= x < d.len() ==> (#[trigger] reaches(d, r, false, x, y, ans) <==> {
                    &&& 0 <= y < d.len()
                    &&& exists|k: nat| k >= 1 && #[trigger] nth_step(d, parent_axis(), false, y, k) == Some(x as usize)
                }),
    {
        let r = Path::child_axis().plus();
        proof {
            assert forall|d: Seq<NodeM>, x: int, y: int, ans: Seq<(Seq<char>, Seq<bool>)>|
                tree_wf(d) && d.len() <= usize::MAX && 0 <= x < d.len() implies (#[trigger] reaches(d, r, false, x, y, ans) <==> {
                    &&& 0 <= y < d.len()
                    &&& exists|k: nat| k >= 1 && #[trigger] nth_step(d, parent_axis(), false, y, k) == Some(x as usize)
                }) by {
                law_descendants(d, x, y, ans);
            }
        }
        r
    }

    /// Descendants passing `test`.
    pub fn find(test: NodeTest) -> (r: Path)
        ensures
            r == spec_filter(spec_plus(Path::Child), test),
            forall|d: Seq<NodeM>, x: int, y: int, ans: Seq<(Seq<char>, Seq<bool>)>|
                tree_wf(d) && d.len() <= usize::MAX && 0 <= x < d.len() ==> (#[trigger] reaches(d, r, false, x, y, ans) <==> {
                    &&& 0 <= y < d.len()
                    &&& exists|k: nat| k >= 1 && #[trigger] nth_step(d, parent_axis(), false, y, k) == Some(x as usize)
                    &&& test_at(test, y, ans)
                }),
    {
        let r = Path::child_axis().plus().filter(test);
        proof {
            assert forall|d: Seq<NodeM>, x: int, y: int, ans: Seq<(Seq<char>, Seq<bool>)>|
                tree_wf(d) && d.len() <= usize::MAX && 0 <= x < d.len() implies (#[trigger] reaches(d, r, false, x, y, ans) <==> {
                    &&& 0 <= y < d.len()
                    &&& exists|k: nat| k >= 1 && #[trigger] nth_step(d, parent_axis(), false, y, k) == Some(x as usize)
                    &&& test_at(test, y, ans)
                }) by {
                law_find(d, test, x, y, ans);
            }
        }
        r
    }

    /// Parent.
    pub fn parent() -> (r: Path)
        ensures
            r == parent_axis(),
    {
        Path::parent_axis()
    }

    /// Ancestors passing `test`, nearest first.
    pub fn parents(test: NodeTest) -> (r: Path)
        ensures
            r == spec_filter(spec_plus(parent_axis()), test),
            forall|d: Seq<NodeM>, x: int, y: int, ans: Seq<(Seq<char>, Seq<bool>)>|
                0 <= x <= usize::MAX ==> (#[trigger] reaches(d, r, false, x, y, ans) <==> {
                    &&& exists|k: nat| k >= 1 && (#[trigger] nth_step(d, parent_axis(), false, x, k) matches Some(z) && z as int == y)
                    &&& test_at(test, y, ans)
                }),
    {
        let r = Path::parent_axis().plus().filter(test);
        proof {
            assert forall|d: Seq<NodeM>, x: int, y: int, ans: Seq<(Seq<char>, Seq<bool>)>|
                0 <= x <= usize::MAX implies (#[trigger] reaches(d, r, false, x, y, ans) <==> {
                    &&& exists|k: nat| k >= 1 && (#[trigger] nth_step(d, parent_axis(), false, x, k) matches Some(z) && z as int == y)
                    &&& test_at(test, y, ans)
                }) by {
                law_all_along(d, parent_axis(), test, x, y, ans);
            }
        }
        r
    }

    /// Next sibling.
    pub fn next() -> (r: Path)
        ensures
            r == Path::Next,
    {
        Path::next_axis()
    }

    /// Following siblings passing `test`.
    pub fn next_all(test: NodeTest) -> (r: Path)
        ensures
            r == spec_filter(spec_plus(Path::Next), test),
            forall|d: Seq<NodeM>, x: int, y: int, ans: Seq<(Seq<char>, Seq<bool>)>|
                0 <= x <= usize::MAX ==> (#[trigger] reaches(d, r, false, x, y, ans) <==> {
                    &&& exists|k: nat| k >= 1 && (#[trigger] nth_step(d, Path::Next, false, x, k) matches Some(z) && z as int == y)
                    &&& test_at(test, y, ans)
                }),
    {
        let r = Path::next_axis().plus().filter(test);
        proof {
            assert forall|d: Seq<NodeM>, x: int, y: int, ans: Seq<(Seq<char>, Seq<bool>)>|
                0 <= x <= usize::MAX implies (#[trigger] reaches(d, r, false, x, y, ans) <==> {
                    &&& exists|k: nat| k >= 1 && (#[trigger] nth_step(d, Path::Next, false, x, k) matches Some(z) && z as int == y)
                    &&& test_at(test, y, ans)
                }) by {
                law_all_along(d, Path::Next, test, x, y, ans);
            }
        }
        r
    }

    /// Previous sibling.
    pub fn prev() -> (r: Path)
        ensures
            r == prev_axis(),
    {
        Path::prev_axis()
    }

    /// Preceding siblings passing `test`, nearest first.
    pub fn prev_all(test: NodeTest) -> (r: Path)
        ensures
            r == spec_filter(spec_plus(prev_axis()), test),
            forall|d: Seq<NodeM>, x: int, y: int, ans: Seq<(Seq<char>, Seq<bool>)>|
                0 <= x <= usize::MAX ==> (#[trigger] reaches(d, r, false, x, y, ans) <==> {
                    &&& exists|k: nat| k >= 1 && (#[trigger] nth_step(d, prev_axis(), false, x, k) matches Some(z) && z as int == y)
                    &&& test_at(test, y, ans)
                }),
    {
        let r = Path::prev_axis().plus().filter(test);
        proof {
            assert forall|d: Seq<NodeM>, x: int, y: int, ans: Seq<(Seq<char>, Seq<bool>)>|
                0 <= x <= usize::MAX implies (#[trigger] reaches(d, r, false, x, y, ans) <==> {
                    &&& exists|k: nat| k >= 1 && (#[trigger] nth_step(d, prev_axis(), false, x, k) matches Some(z) && z as int == y)
                    &&& test_at(test, y, ans)
                }) by {
                law_all_along(d, prev_axis(), test, x, y, ans);
            }
        }
        r
    }

    /// Siblings passing `test`.
    pub fn siblings(test: NodeTest) -> (r: Path)
        ensures
            r == spec_filter(
                Path::Union(Box::new(spec_plus(Path::Next)), Box::new(spec_plus(prev_axis()))),
                test,
            ),
            forall|d: Seq<NodeM>, x: int, y: int, ans: Seq<(Seq<char>, Seq<bool>)>|
                0 <= x <= usize::MAX ==> (#[trigger] reaches(d, r, false, x, y, ans) <==> {
                    &&& (exists|k: nat| k >= 1 && (#[trigger] nth_step(d, Path::Next, false, x, k) matches Some(z) && z as int == y))
                        || (exists|k: nat| k >= 1 && (#[trigger] nth_step(d, prev_axis(), false, x, k) matches Some(z) && z as int == y))
                    &&& test_at(test, y, ans)
                }),
    {
        let r = Path::next_axis().plus().union(Path::prev_axis().plus()).filter(test);
        proof {
            assert forall|d: Seq<NodeM>, x: int, y: int, ans: Seq<(Seq<char>, Seq<bool>)>|
                0 <= x <= usize::MAX implies (#[trigger] reaches(d, r, false, x, y, ans) <==> {
                    &&& (exists|k: nat| k >= 1 && (#[trigger] nth_step(d, Path::Next, false, x, k) matches Some(z) && z as int == y))
                        || (exists|k: nat| k >= 1 && (#[trigger] nth_step(d, prev_axis(), false, x, k) matches Some(z) && z as int == y))
                    &&& test_at(test, y, ans)
                }) by {
                law_siblings(d, test, x, y, ans);
            }
        }
        r
    }

    /// Closest ancestor-or-self passing `test`: `([not test] ; parent)* ; [test]`.
    pub fn closest(test: NodeTest) -> (r: Path)
        ensures
            r == compose(
                Path::Star(Box::new(compose(Path::Test(NodeTest::Not(Box::new(test))), parent_axis()))),
                Path::Test(test),
            ),
            forall|d: Seq<NodeM>, x: int, y: int, ans: Seq<(Seq<char>, Seq<bool>)>|
                0 <= x <= usize::MAX ==> (#[trigger] reaches(d, r, false, x, y, ans) <==> exists|k: nat| {
                    &&& #[trigger] nth_step(d, parent_axis(), false, x, k) matches Some(z) && z as int == y
                    &&& test_at(test, y, ans)
                    &&& forall|j: nat| j < k ==> ((#[trigger] nth_step(d, parent_axis(), false, x, j)) matches Some(w) && !test_at(test, w as int, ans))
                }),
    {
        let climb_while_not = Path::test(test.copy().not()).followed_by(Path::parent_axis());
        let r = climb_while_not.star().followed_by(Path::test(test));
        proof {
            assert forall|d: Seq<NodeM>, x: int, y: int, ans: Seq<(Seq<char>, Seq<bool>)>|
                0 <= x <= usize::MAX implies (#[trigger] reaches(d, r, false, x, y, ans) <==> exists|k: nat| {
                    &&& #[trigger] nth_step(d, parent_axis(), false, x, k) matches Some(z) && z as int == y
                    &&& test_at(test, y, ans)
                    &&& forall|j: nat| j < k ==> ((#[trigger] nth_step(d, parent_axis(), false, x, j)) matches Some(w) && !test_at(test, w as int, ans))
                }) by {
                law_closest(d, test, x, y, ans);
            }
        }
        r
    }

    /// Next siblings until `stop` (excluded).
    pub fn next_until(stop: NodeTest) -> (r: Path)
        ensures
            r == spec_until(Path::Next, stop),
            forall|d: Seq<NodeM>, x: int, y: int, ans: Seq<(Seq<char>, Seq<bool>)>|
                0 <= x <= usize::MAX ==> (#[trigger] reaches(d, r, false, x, y, ans) <==> exists|k: nat| {
                    &&& k >= 1
                    &&& #[trigger] nth_step(d, Path::Next, false, x, k) matches Some(z) && z as int == y
                    &&& clear_steps(d, Path::Next, stop, x, k, ans)
                }),
    {
        let r = Path::until_axis(Path::next_axis(), stop);
        proof {
            assert forall|d: Seq<NodeM>, x: int, y: int, ans: Seq<(Seq<char>, Seq<bool>)>|
                0 <= x <= usize::MAX implies (#[trigger] reaches(d, r, false, x, y, ans) <==> exists|k: nat| {
                    &&& k >= 1
                    &&& #[trigger] nth_step(d, Path::Next, false, x, k) matches Some(z) && z as int == y
                    &&& clear_steps(d, Path::Next, stop, x, k, ans)
                }) by {
                law_until(d, Path::Next, stop, x, y, ans);
            }
        }
        r
    }

    /// Previous siblings until `stop` (excluded).
    pub fn prev_until(stop: NodeTest) -> (r: Path)
        ensures
            r == spec_until(prev_axis(), stop),
            forall|d: Seq<NodeM>, x: int, y: int, ans: Seq<(Seq<char>, Seq<bool>)>|
                0 <= x <= usize::MAX ==> (#[trigger] reaches(d, r, false, x, y, ans) <==> exists|k: nat| {
                    &&& k >= 1
                    &&& #[trigger] nth_step(d, prev_axis(), false, x, k) matches Some(z) && z as int == y
                    &&& clear_steps(d, prev_axis(), stop, x, k, ans)
                }),
    {
        let r = Path::until_axis(Path::prev_axis(), stop);
        proof {
            assert forall|d: Seq<NodeM>, x: int, y: int, ans: Seq<(Seq<char>, Seq<bool>)>|
                0 <= x <= usize::MAX implies (#[trigger] reaches(d, r, false, x, y, ans) <==> exists|k: nat| {
                    &&& k >= 1
                    &&& #[trigger] nth_step(d, prev_axis(), false, x, k) matches Some(z) && z as int == y
                    &&& clear_steps(d, prev_axis(), stop, x, k, ans)
                }) by {
                law_until(d, prev_axis(), stop, x, y, ans);
            }
        }
        r
    }

    /// Ancestors until `stop` (excluded).
    pub fn parents_until(stop: NodeTest) -> (r: Path)
        ensures
            r == spec_until(parent_axis(), stop),
            forall|d: Seq<NodeM>, x: int, y: int, ans: Seq<(Seq<char>, Seq<bool>)>|
                0 <= x <= usize::MAX ==> (#[trigger] reaches(d, r, false, x, y, ans) <==> exists|k: nat| {
                    &&& k >= 1
                    &&& #[trigger] nth_step(d, parent_axis(), false, x, k) matches Some(z) && z as int == y
                    &&& clear_steps(d, parent_axis(), stop, x, k, ans)
                }),
    {
        let r = Path::until_axis(Path::parent_axis(), stop);
        proof {
            assert forall|d: Seq<NodeM>, x: int, y: int, ans: Seq<(Seq<char>, Seq<bool>)>|
                0 <= x <= usize::MAX implies (#[trigger] reaches(d, r, false, x, y, ans) <==> exists|k: nat| {
                    &&& k >= 1
                    &&& #[trigger] nth_step(d, parent_axis(), false, x, k) matches Some(z) && z as int == y
                    &&& clear_steps(d, parent_axis(), stop, x, k, ans)
                }) by {
                law_until(d, parent_axis(), stop, x, y, ans);
            }
        }
        r
    }

    fn until_axis(axis: Path, stop: NodeTest) -> (r: Path)
        ensures
            r == spec_until(axis, stop),
    {
        axis.followed_by(Path::test(stop.not())).plus()
    }
}

} // verus!
