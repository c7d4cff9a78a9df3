//! Path algebra over the child and next-sibling generators and node tests.
//!
//! Cheerio-like constructors live in [`super::path_extension`].

use vstd::prelude::*;
use std::rc::Rc;
use crate::matcher::match_pattern::MatchPattern;
use crate::matcher::step::chain_valid;
use crate::plan::offline::axes::{law_filter, law_plus};
use crate::plan::offline::dom::NodeM;
use crate::plan::offline::path::{reaches, reaches_in, test_at};

verus! {

/// Boolean node test: `false`, `true`, a matcher, NOT, OR, AND.
///
/// A matcher arm holds a validated [`MatchPattern`], shared between copies of a path.
pub enum NodeTest {
    False,
    True,
    Match(Rc<MatchPattern>),
    Not(Box<NodeTest>),
    Or(Box<NodeTest>, Box<NodeTest>),
    And(Box<NodeTest>, Box<NodeTest>),
}

/// Shares a matcher between two copies of a path: the copy points at the same pattern.
#[verifier::external_body]
fn share_pattern(pattern: &Rc<MatchPattern>) -> (r: Rc<MatchPattern>)
    ensures
        r == *pattern,
{
    Rc::clone(pattern)
}

impl NodeTest {
    /// A matcher test. The pattern must be a complete chain.
    pub fn matcher(pattern: MatchPattern) -> (r: NodeTest)
        requires
            chain_valid(pattern.spec_steps()),
        ensures
            r == NodeTest::Match(Rc::new(pattern)),
    {
        NodeTest::Match(Rc::new(pattern))
    }

    pub fn not(self) -> (r: NodeTest)
        ensures
            r == NodeTest::Not(Box::new(self)),
            forall|y: int, ans: Seq<(Seq<char>, Seq<bool>)>| #[trigger] test_at(r, y, ans) == !test_at(self, y, ans),
    {
        NodeTest::Not(Box::new(self))
    }

    pub fn or(self, other: NodeTest) -> (r: NodeTest)
        ensures
            r == NodeTest::Or(Box::new(self), Box::new(other)),
            forall|y: int, ans: Seq<(Seq<char>, Seq<bool>)>| #[trigger] test_at(r, y, ans) == (test_at(self, y, ans) || test_at(other, y, ans)),
    {
        NodeTest::Or(Box::new(self), Box::new(other))
    }

    pub fn and(self, other: NodeTest) -> (r: NodeTest)
        ensures
            r == NodeTest::And(Box::new(self), Box::new(other)),
            forall|y: int, ans: Seq<(Seq<char>, Seq<bool>)>| #[trigger] test_at(r, y, ans) == (test_at(self, y, ans) && test_at(other, y, ans)),
    {
        NodeTest::And(Box::new(self), Box::new(other))
    }

    /// A copy of the test; matcher arms share their pattern.
    pub fn copy(&self) -> (r: NodeTest)
        ensures
            r == *self,
        decreases self,
    {
        match self {
            NodeTest::False => NodeTest::False,
            NodeTest::True => NodeTest::True,
            NodeTest::Match(p) => NodeTest::Match(share_pattern(p)),
            NodeTest::Not(a) => NodeTest::Not(Box::new(a.copy())),
            NodeTest::Or(a, b) => NodeTest::Or(Box::new(a.copy()), Box::new(b.copy())),
            NodeTest::And(a, b) => NodeTest::And(Box::new(a.copy()), Box::new(b.copy())),
        }
    }
}

/// Path expression over the child / next generators and tests.
pub enum Path {
    /// Empty relation.
    Empty,
    /// Identity.
    Id,
    /// Child axis.
    Child,
    /// Next-sibling axis.
    Next,
    /// Test as subidentity.
    Test(NodeTest),
    /// Union (r + s): one path or the other.
    Union(Box<Path>, Box<Path>),
    /// Composition (r ; s): one path after the other.
    Compose(Box<Path>, Box<Path>),
    /// Reflexive transitive closure (r*): zero or more repetitions.
    Star(Box<Path>),
    /// Converse: the opposite direction (next and previous, parent and child).
    Converse(Box<Path>),
}

/// `p ; q`.
pub open spec fn compose(p: Path, q: Path) -> Path {
    Path::Compose(Box::new(p), Box::new(q))
}

/// `p+ = p ; p*`.
pub open spec fn spec_plus(p: Path) -> Path {
    compose(p, Path::Star(Box::new(p)))
}

/// `p` restricted to destinations passing `t` (unchanged for the `true` test).
pub open spec fn spec_filter(p: Path, t: NodeTest) -> Path {
    match t {
        NodeTest::True => p,
        _ => compose(p, Path::Test(t)),
    }
}

impl Path {
    pub fn empty() -> (r: Path)
        ensures
            r == Path::Empty,
    {
        Path::Empty
    }

    pub fn id() -> (r: Path)
        ensures
            r == Path::Id,
    {
        Path::Id
    }

    pub fn child_axis() -> (r: Path)
        ensures
            r == Path::Child,
    {
        Path::Child
    }

    pub fn next_axis() -> (r: Path)
        ensures
            r == Path::Next,
    {
        Path::Next
    }

    pub fn parent_axis() -> (r: Path)
        ensures
            r == Path::Converse(Box::new(Path::Child)),
    {
        Path::Child.converse()
    }

    pub fn prev_axis() -> (r: Path)
        ensures
            r == Path::Converse(Box::new(Path::Next)),
    {
        Path::Next.converse()
    }

    pub fn test(phi: NodeTest) -> (r: Path)
        ensures
            r == Path::Test(phi),
    {
        Path::Test(phi)
    }

    /// Composition.
    pub fn followed_by(self, other: Path) -> (r: Path)
        ensures
            r == compose(self, other),
    {
        Path::Compose(Box::new(self), Box::new(other))
    }

    /// Restricts the destinations.
    pub fn filter(self, test: NodeTest) -> (r: Path)
        ensures
            r == spec_filter(self, test),
            forall|d: Seq<NodeM>, x: int, y: int, ans: Seq<(Seq<char>, Seq<bool>)>|
                #[trigger] reaches(d, r, false, x, y, ans) <==> reaches(d, self, false, x, y, ans) && test_at(test, y, ans),
    {
        let ghost p = self;
        let ghost t = test;
        let r = match test {
            NodeTest::True => self,
            other => self.followed_by(Path::test(other)),
        };
        proof {
            assert forall|d: Seq<NodeM>, x: int, y: int, ans: Seq<(Seq<char>, Seq<bool>)>|
                #[trigger] reaches(d, r, false, x, y, ans) <==> reaches(d, p, false, x, y, ans) && test_at(t, y, ans) by {
                law_filter(d, p, t, x, y, ans);
            }
        }
        r
    }

    pub fn union(self, other: Path) -> (r: Path)
        ensures
            r == Path::Union(Box::new(self), Box::new(other)),
            forall|d: Seq<NodeM>, x: int, y: int, ans: Seq<(Seq<char>, Seq<bool>)>|
                #[trigger] reaches(d, r, false, x, y, ans) == (reaches(d, self, false, x, y, ans) || reaches(d, other, false, x, y, ans)),
    {
        Path::Union(Box::new(self), Box::new(other))
    }

    pub fn star(self) -> (r: Path)
        ensures
            r == Path::Star(Box::new(self)),
    {
        Path::Star(Box::new(self))
    }

    /// Transitive closure (r+): one or more repetitions.
    pub fn plus(self) -> (r: Path)
        ensures
            r == spec_plus(self),
            forall|d: Seq<NodeM>, x: int, y: int, ans: Seq<(Seq<char>, Seq<bool>)>|
                #[trigger] reaches(d, r, false, x, y, ans) <==> exists|k: nat| k >= 1 && #[trigger] reaches_in(d, self, false, x, y, k, ans),
    {
        let ghost p = self;
        let rest = self.copy().star();
        let r = self.followed_by(rest);
        proof {
            assert forall|d: Seq<NodeM>, x: int, y: int, ans: Seq<(Seq<char>, Seq<bool>)>|
                #[trigger] reaches(d, r, false, x, y, ans) <==> exists|k: nat| k >= 1 && #[trigger] reaches_in(d, p, false, x, y, k, ans) by {
                law_plus(d, p, x, y, ans);
            }
        }
        r
    }

    pub fn converse(self) -> (r: Path)
        ensures
            r == Path::Converse(Box::new(self)),
    {
        Path::Converse(Box::new(self))
    }

    /// A copy of the path; matcher arms share their pattern.
    pub fn copy(&self) -> (r: Path)
        ensures
            r == *self,
        decreases self,
    {
        match self {
            Path::Empty => Path::Empty,
            Path::Id => Path::Id,
            Path::Child => Path::Child,
            Path::Next => Path::Next,
            Path::Test(t) => Path::Test(t.copy()),
            Path::Union(a, b) => Path::Union(Box::new(a.copy()), Box::new(b.copy())),
            Path::Compose(a, b) => Path::Compose(Box::new(a.copy()), Box::new(b.copy())),
            Path::Star(a) => Path::Star(Box::new(a.copy())),
            Path::Converse(a) => Path::Converse(Box::new(a.copy())),
        }
    }
}

} // verus!
