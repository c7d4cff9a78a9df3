//! Offline path denotation over a parsed document.
//!
//! From a source node, yields the destinations ordered by axis rank: document order for
//! downward and forward axes, nearest first for upward and backward axes. Union is
//! Boolean: every destination appears once.

use vstd::prelude::*;
use crate::matcher::step::{steps_view, StepM};
use crate::plan::representation::id::DomNodeId;
use crate::plan::representation::path::{NodeTest, Path};
use super::dom::{css_answers, css_parses, selector_parses, spec_children_ids, spec_parent, spec_sibling, tree_wf, Dom, NodeM};
use super::preorder::{
    lemma_child_in_from, lemma_distinct_parts, lemma_earlier_child_not_later, lemma_from_step,
    lemma_has_id_concat, lemma_preorder_distinct, lemma_stack_in_pending, pending, preorder,
    preorder_from,
};

verus! {

broadcast use vstd::std_specs::vec::group_vec_axioms;

/// Some node of `s` has id `k`.
pub open spec fn has_id(s: Seq<DomNodeId>, k: int) -> bool {
    exists|w: int| 0 <= w < s.len() && s[w].0 == k
}

/// Distinct node ids, all inside a document of `n` nodes.
pub open spec fn distinct_within(s: Seq<DomNodeId>, n: nat) -> bool {
    &&& forall|i: int| 0 <= i < s.len() ==> (#[trigger] s[i]).0 < n
    &&& forall|i: int, j: int| 0 <= i < j < s.len() ==> #[trigger] s[i] != #[trigger] s[j]
}

/// A matcher the offline evaluator supports: one CSS filter, no predicate.
pub open spec fn offline_matcher(steps: Seq<StepM>) -> bool {
    &&& steps.len() == 1
    &&& steps[0] matches StepM::Filter(_, has_predicate) && !has_predicate
}

/// Every matcher arm of the test is supported offline.
pub open spec fn offline_test(t: NodeTest) -> bool
    decreases t,
{
    match t {
        NodeTest::False => true,
        NodeTest::True => true,
        NodeTest::Match(p) => offline_matcher(p.spec_steps()),
        NodeTest::Not(a) => offline_test(*a),
        NodeTest::Or(a, b) => offline_test(*a) && offline_test(*b),
        NodeTest::And(a, b) => offline_test(*a) && offline_test(*b),
    }
}

/// Every test of the path is supported offline.
pub open spec fn offline_path(p: Path) -> bool
    decreases p,
{
    match p {
        Path::Test(t) => offline_test(t),
        Path::Union(a, b) => offline_path(*a) && offline_path(*b),
        Path::Compose(a, b) => offline_path(*a) && offline_path(*b),
        Path::Star(a) => offline_path(*a),
        Path::Converse(a) => offline_path(*a),
        _ => true,
    }
}

pub open spec fn opt_ids(o: Option<usize>) -> Seq<DomNodeId> {
    match o {
        Some(c) => seq![DomNodeId(c as u64)],
        None => Seq::empty(),
    }
}

/// The destinations of the basic paths, in the forward (`converse == false`) or backward
/// direction.
pub open spec fn basic_dests(d: Seq<NodeM>, p: Path, x: int, converse: bool) -> Seq<DomNodeId> {
    match p {
        Path::Empty => Seq::empty(),
        Path::Id => seq![DomNodeId(x as u64)],
        Path::Child => if converse {
            opt_ids(spec_parent(d, x))
        } else {
            spec_children_ids(d, x)
        },
        Path::Next => if converse {
            opt_ids(spec_sibling(d, x, -1))
        } else {
            opt_ids(spec_sibling(d, x, 1))
        },
        _ => Seq::empty(),
    }
}

pub open spec fn is_basic(p: Path) -> bool {
    p is Empty || p is Id || p is Child || p is Next
}

/// The converse of a basic path.
pub open spec fn is_converse_basic(p: Path) -> bool {
    &&& p is Converse
    &&& is_basic(*p->Converse_0)
}

/// The answers of CSS selectors on the document's nodes: per selector text, one answer
/// per node id.
pub struct Answers {
    pub entries: Vec<(String, Vec<bool>)>,
}

impl View for Answers {
    type V = Seq<(Seq<char>, Seq<bool>)>;

    open spec fn view(&self) -> Seq<(Seq<char>, Seq<bool>)> {
        Seq::new(self.entries@.len(), |k: int| (self.entries@[k].0@, self.entries@[k].1@))
    }
}

/// Whether selector `css` holds on node `y`: the first answers listed for `css`, `false`
/// where none are listed.
pub open spec fn answer(ans: Seq<(Seq<char>, Seq<bool>)>, css: Seq<char>, y: int) -> bool
    decreases ans.len(),
{
    if ans.len() == 0 {
        false
    } else if ans[0].0 == css {
        0 <= y < ans[0].1.len() && ans[0].1[y]
    } else {
        answer(ans.drop_first(), css, y)
    }
}

/// The selector text of a single-filter matcher.
pub open spec fn match_css(steps: Seq<StepM>) -> Seq<char> {
    match steps[0] {
        StepM::Filter(css, _) => css,
        _ => Seq::empty(),
    }
}

/// Whether node `y` passes test `t`, given the selectors' answers.
pub open spec fn test_at(t: NodeTest, y: int, ans: Seq<(Seq<char>, Seq<bool>)>) -> bool
    decreases t,
{
    match t {
        NodeTest::False => false,
        NodeTest::True => true,
        NodeTest::Match(p) => answer(ans, match_css(p.spec_steps()), y),
        NodeTest::Not(a) => !test_at(*a, y, ans),
        NodeTest::Or(a, b) => test_at(*a, y, ans) || test_at(*b, y, ans),
        NodeTest::And(a, b) => test_at(*a, y, ans) && test_at(*b, y, ans),
    }
}

/// Names an intermediate node of a composition.
pub open spec fn via(z: int) -> bool {
    true
}

/// Names a number of repetitions of a closure.
pub open spec fn repetitions(k: nat) -> bool {
    true
}

/// `y` is reached from `x` by zero or more steps of `q`.
pub open spec fn reaches_star(d: Seq<NodeM>, q: Path, converse: bool, x: int, y: int, ans: Seq<(Seq<char>, Seq<bool>)>) -> bool {
    exists|k: nat| #[trigger] repetitions(k) && reaches_in(d, q, converse, x, y, k, ans)
}

/// The relation a path denotes: `y` is a destination of `p` from `x`, read backwards when
/// `converse` (tests that need a selector count as failing).
pub open spec fn reaches(d: Seq<NodeM>, p: Path, converse: bool, x: int, y: int, ans: Seq<(Seq<char>, Seq<bool>)>) -> bool
    decreases p, 0int, 0nat,
{
    match p {
        Path::Test(t) => x == y && test_at(t, y, ans),
        Path::Union(a, b) => reaches(d, *a, converse, x, y, ans) || reaches(d, *b, converse, x, y, ans),
        Path::Compose(a, b) => if converse {
            exists|z: int| #[trigger] via(z) && reaches(d, *b, converse, x, z, ans) && reaches(d, *a, converse, z, y, ans)
        } else {
            exists|z: int| #[trigger] via(z) && reaches(d, *a, converse, x, z, ans) && reaches(d, *b, converse, z, y, ans)
        },
        Path::Star(q) => exists|k: nat| #[trigger] repetitions(k) && reaches_in(d, *q, converse, x, y, k, ans),
        Path::Converse(q) => reaches(d, *q, !converse, x, y, ans),
        _ => has_id(basic_dests(d, p, x, converse), y),
    }
}

/// `y` is reached from `x` by exactly `k` steps of `q`.
pub open spec fn reaches_in(d: Seq<NodeM>, q: Path, converse: bool, x: int, y: int, k: nat, ans: Seq<(Seq<char>, Seq<bool>)>) -> bool
    decreases q, 1int, k,
{
    if k == 0 {
        x == y
    } else {
        exists|z: int| #[trigger] via(z) && reaches_in(d, q, converse, x, z, (k - 1) as nat, ans) && reaches(d, q, converse, z, y, ans)
    }
}

/// For a basic path, the destinations listed are exactly those it reaches.
proof fn lemma_basic_reaches(d: Seq<NodeM>, p: Path, converse: bool, x: int, r: Seq<DomNodeId>, ans: Seq<(Seq<char>, Seq<bool>)>)
    requires
        is_basic(p),
        r == basic_dests(d, p, x, converse),
    ensures
        forall|y: int| #[trigger] has_id(r, y) == reaches(d, p, converse, x, y, ans),
{
}

/// The destinations of `p` from `x`, in the order they are listed, where the shape of
/// the path fixes it: basic axes and their converses, tests, descendants-or-self (in
/// document order), and unions (left first) and compositions (per source, in source
/// order) of such paths, each node listed once, where first met. `None` otherwise.
pub open spec fn ordered_dests(d: Seq<NodeM>, p: Path, converse: bool, x: int, ans: Seq<(Seq<char>, Seq<bool>)>) -> Option<Seq<DomNodeId>>
    decreases p, 0nat,
{
    if is_basic(p) {
        Some(basic_dests(d, p, x, converse))
    } else {
        match p {
            Path::Test(t) => Some(if test_at(t, x, ans) { seq![DomNodeId(x as u64)] } else { Seq::empty() }),
            Path::Union(a, b) => match (ordered_dests(d, *a, converse, x, ans), ordered_dests(d, *b, converse, x, ans)) {
                (Some(sa), Some(sb)) => Some(fresh(sa, Seq::empty()) + fresh(sb, fresh(sa, Seq::empty()))),
                _ => None,
            },
            Path::Compose(l, r) => {
                let first = if converse { *r } else { *l };
                let second = if converse { *l } else { *r };
                match ordered_dests(d, first, converse, x, ans) {
                    Some(sa) => compose_dests(d, second, converse, sa, ans),
                    None => None,
                }
            },
            Path::Star(q) => if *q is Child && !converse {
                Some(preorder(d, x))
            } else {
                None
            },
            Path::Converse(q) => ordered_dests(d, *q, !converse, x, ans),
            _ => None,
        }
    }
}

/// The destinations of `q` from each of `srcs` in turn, each node listed once, where
/// first met; `None` where the order of some of them is not fixed.
pub open spec fn compose_dests(d: Seq<NodeM>, q: Path, converse: bool, srcs: Seq<DomNodeId>, ans: Seq<(Seq<char>, Seq<bool>)>) -> Option<Seq<DomNodeId>>
    decreases q, srcs.len(),
{
    if srcs.len() == 0 {
        Some(Seq::empty())
    } else {
        match (compose_dests(d, q, converse, srcs.drop_last(), ans), ordered_dests(d, q, converse, srcs.last().0 as int, ans)) {
            (Some(prev), Some(cur)) => Some(prev + fresh(cur, prev)),
            _ => None,
        }
    }
}

/// Where the order over all of `srcs` is fixed, it is over each prefix, and one more
/// source appends its fresh destinations.
proof fn lemma_compose_prefix(d: Seq<NodeM>, q: Path, converse: bool, srcs: Seq<DomNodeId>, ans: Seq<(Seq<char>, Seq<bool>)>, i: int)
    requires
        compose_dests(d, q, converse, srcs, ans) is Some,
        0 <= i < srcs.len(),
    ensures
        compose_dests(d, q, converse, srcs.take(i), ans) is Some,
        ordered_dests(d, q, converse, srcs[i].0 as int, ans) is Some,
        compose_dests(d, q, converse, srcs.take(i + 1), ans) == Some(
            compose_dests(d, q, converse, srcs.take(i), ans)->0 + fresh(
                ordered_dests(d, q, converse, srcs[i].0 as int, ans)->0,
                compose_dests(d, q, converse, srcs.take(i), ans)->0,
            ),
        ),
    decreases srcs.len() - i,
{
    assert(srcs.take(i + 1).drop_last() =~= srcs.take(i));
    if i + 1 == srcs.len() {
        assert(srcs.take(i + 1) =~= srcs);
    } else {
        lemma_compose_prefix(d, q, converse, srcs, ans, i + 1);
        assert(srcs.take(i + 2).drop_last() =~= srcs.take(i + 1));
    }
}

/// What the evaluation of `path` from node `x` gives, as far as it is determined: the
/// destinations are distinct nodes; basic axes and their converses give exactly their
/// destinations; paths without selector tests reach exactly the listed nodes; a test
/// keeps or drops the source; closures of single steps list nodes nearest first,
/// descendants-or-self come in document order, and where the path's shape fixes the
/// order of the destinations (`ordered_dests`) they come in that order.
pub open spec fn path_result(d: Seq<NodeM>, path: Path, x: int, r: Seq<DomNodeId>, ans: Seq<(Seq<char>, Seq<bool>)>) -> bool {
    &&& distinct_within(r, d.len())
    &&& is_basic(path) ==> r == basic_dests(d, path, x, false)
    &&& is_converse_basic(path) ==> r == basic_dests(d, *path->Converse_0, x, true)
    &&& forall|y: int| #[trigger] has_id(r, y) == reaches(d, path, false, x, y, ans)
    &&& path is Test ==> r == seq![DomNodeId(x as u64)] || r.len() == 0
    &&& path is Star && is_single_step(*path->Star_0, false) ==> {
        &&& forall|k: int| 0 <= k < r.len() ==> #[trigger] nth_step(d, *path->Star_0, false, x, k as nat) == Some(r[k].0 as usize)
        &&& nth_step(d, *path->Star_0, false, x, r.len()) matches Some(z) ==> has_id(r, z as int)
    }
    &&& path is Star && *path->Star_0 is Child ==> r == preorder(d, x)
    &&& ordered_dests(d, path, false, x, ans) matches Some(o) ==> r == o
}

/// Destinations of `path` from `source`, in axis-rank order, with the selector tests
/// answered by `ans`.
pub fn eval_answered(dom: &Dom, path: &Path, source: DomNodeId, ans: &Answers) -> (r: Vec<DomNodeId>)
    requires
        source.0 < dom@.len(),
        offline_path(*path),
    ensures
        distinct_within(r@, dom@.len()),
        is_basic(*path) ==> r@ == basic_dests(dom@, *path, source.0 as int, false),
        is_converse_basic(*path) ==> r@ == basic_dests(dom@, *path->Converse_0, source.0 as int, true),
        forall|y: int| #[trigger] has_id(r@, y) == reaches(dom@, *path, false, source.0 as int, y, ans@),
        *path is Test ==> r@ == seq![source] || r@.len() == 0,
        *path is Star && is_single_step(*path->Star_0, false) ==> {
            &&& forall|k: int| 0 <= k < r@.len() ==> #[trigger] nth_step(dom@, *path->Star_0, false, source.0 as int, k as nat) == Some(r@[k].0 as usize)
            &&& nth_step(dom@, *path->Star_0, false, source.0 as int, r@.len()) matches Some(z) ==> has_id(r@, z as int)
        },
        *path is Star && *path->Star_0 is Child ==> r@ == preorder(dom@, source.0 as int),
        ordered_dests(dom@, *path, false, source.0 as int, ans@) matches Some(o) ==> r@ == o,
        path_result(dom@, *path, source.0 as int, r@, ans@),
{
    eval_dir(dom, path, source, false, ans)
}

fn opt_vec(o: Option<DomNodeId>) -> (r: Vec<DomNodeId>)
    ensures
        r@ == match o {
            Some(c) => seq![c],
            None => Seq::empty(),
        },
{
    let mut out: Vec<DomNodeId> = Vec::new();
    if let Some(c) = o {
        out.push(c);
    }
    out
}

/// The output `[source]` with its seen marks.
fn start_at(n: usize, source: DomNodeId) -> (r: (Vec<DomNodeId>, Vec<bool>))
    requires
        source.0 < n,
    ensures
        r.0@ == seq![source],
        r.1@.len() == n,
        forall|k: int| 0 <= k < n ==> (#[trigger] r.1@[k] <==> has_id(r.0@, k)),
{
    let mut seen = fresh_seen(n);
    seen.set(source.0 as usize, true);
    let mut out: Vec<DomNodeId> = Vec::new();
    out.push(source);
    proof {
        assert forall|k: int| 0 <= k < n implies (#[trigger] seen@[k] <==> has_id(out@, k as int)) by {
            if k == source.0 {
                assert(out@[0] == source);
            } else {
                if has_id(out@, k as int) {
                    let w = choose|w: int| 0 <= w < out@.len() && out@[w] == DomNodeId(k as u64);
                    assert(w == 0);
                }
            }
        }
    }
    (out, seen)
}

/// A step that leads to at most one node: parent, next or previous sibling.
pub open spec fn is_single_step(q: Path, converse: bool) -> bool {
    match q {
        Path::Child => converse,
        Path::Next => true,
        Path::Converse(inner) => (*inner is Child && !converse) || *inner is Next,
        _ => false,
    }
}

/// Where a single step leads from `z`, if anywhere.
pub open spec fn single_step(d: Seq<NodeM>, q: Path, converse: bool, z: int) -> Option<usize> {
    let (axis, backwards) = match q {
        Path::Converse(inner) => (*inner, !converse),
        _ => (q, converse),
    };
    match axis {
        Path::Child => spec_parent(d, z),
        _ => spec_sibling(d, z, if backwards { -1 } else { 1 }),
    }
}

/// The node `k` single steps away from `x`, if the steps lead that far.
pub open spec fn nth_step(d: Seq<NodeM>, q: Path, converse: bool, x: int, k: nat) -> Option<usize>
    decreases k,
{
    if k == 0 {
        Some(x as usize)
    } else {
        match nth_step(d, q, converse, x, (k - 1) as nat) {
            Some(z) => single_step(d, q, converse, z as int),
            None => None,
        }
    }
}

/// A single step's destinations are the one node it leads to, if any.
pub proof fn lemma_single_step_dests(d: Seq<NodeM>, q: Path, converse: bool, z: int)
    requires
        is_single_step(q, converse),
    ensures
        is_basic(q) ==> basic_dests(d, q, z, converse) == opt_ids(single_step(d, q, converse, z)),
        is_converse_basic(q) ==> basic_dests(d, *q->Converse_0, z, !converse) == opt_ids(single_step(d, q, converse, z)),
{
}

/// The nodes of `s`, in order, that neither `base` nor an earlier node of `s` holds.
pub open spec fn fresh(s: Seq<DomNodeId>, base: Seq<DomNodeId>) -> Seq<DomNodeId>
    decreases s.len(),
{
    if s.len() == 0 {
        Seq::empty()
    } else {
        let f = fresh(s.drop_last(), base);
        if has_id(base + f, s.last().0 as int) {
            f
        } else {
            f.push(s.last())
        }
    }
}

/// Appends to `out` the ids of `add` not yet `seen`, marking them.
fn push_unseen(out: &mut Vec<DomNodeId>, seen: &mut Vec<bool>, add: &Vec<DomNodeId>)
    requires
        distinct_within(old(out)@, old(seen)@.len() as nat),
        forall|i: int| 0 <= i < add@.len() ==> (#[trigger] add@[i]).0 < old(seen)@.len(),
        forall|k: int| 0 <= k < old(seen)@.len() ==> (#[trigger] old(seen)@[k] <==> has_id(old(out)@, k)),
    ensures
        final(seen)@.len() == old(seen)@.len(),
        distinct_within(final(out)@, final(seen)@.len() as nat),
        forall|k: int| 0 <= k < final(seen)@.len() ==> (#[trigger] final(seen)@[k] <==> has_id(final(out)@, k)),
        final(out)@.len() >= old(out)@.len(),
        forall|i: int| 0 <= i < old(out)@.len() ==> #[trigger] final(out)@[i] == old(out)@[i],
        forall|k: int| #[trigger] has_id(final(out)@, k) == (has_id(old(out)@, k) || has_id(add@, k)),
        final(out)@ == old(out)@ + fresh(add@, old(out)@),
{
    let n = seen.len();
    assert(add@.take(0) =~= Seq::<DomNodeId>::empty());
    assert(old(out)@ + fresh(add@.take(0), old(out)@) =~= old(out)@);
    let mut i: usize = 0;
    while i < add.len()
        invariant
            seen@.len() == n,
            i <= add@.len(),
            forall|j: int| 0 <= j < add@.len() ==> (#[trigger] add@[j]).0 < n,
            distinct_within(out@, n as nat),
            forall|k: int| 0 <= k < n ==> (#[trigger] seen@[k] <==> has_id(out@, k)),
            out@.len() >= old(out)@.len(),
            forall|j: int| 0 <= j < old(out)@.len() ==> #[trigger] out@[j] == old(out)@[j],
            forall|k: int| #[trigger] has_id(out@, k) == (has_id(old(out)@, k) || has_id(add@.take(i as int), k)),
            out@ == old(out)@ + fresh(add@.take(i as int), old(out)@),
        decreases add@.len() - i,
    {
        let z = add[i];
        let k = z.0 as usize;
        let ghost before = out@;
        let ghost pushed = !seen[k as int];
        if !seen[k] {
            push_marked(out, seen, z);
        }
        proof {
            let t1 = add@.take(i + 1);
            assert(t1.drop_last() =~= add@.take(i as int));
            assert(t1.last() == z);
            assert(old(out)@ + fresh(add@.take(i as int), old(out)@) == before);
            if pushed {
                assert(out@[before.len() as int] == z);
                assert(!has_id(before, z.0 as int));
                assert(out@ =~= old(out)@ + fresh(t1, old(out)@));
            } else {
                assert(out@ == before);
                assert(seen@[k as int]);
                assert(out@ =~= old(out)@ + fresh(t1, old(out)@));
            }
            assert(has_id(out@, z.0 as int));
            assert forall|q: int| #[trigger] has_id(out@, q) == (has_id(old(out)@, q) || has_id(add@.take(i + 1), q)) by {
                let t = add@.take(i + 1);
                assert(t[i as int] == z);
                if has_id(add@.take(i as int), q) {
                    let w = choose|w: int| 0 <= w < i && add@.take(i as int)[w].0 == q;
                    assert(t[w] == add@[w]);
                }
                if has_id(t, q) {
                    let w = choose|w: int| 0 <= w < t.len() && t[w].0 == q;
                    if w < i {
                        assert(add@.take(i as int)[w] == add@[w]);
                    }
                }
                if has_id(out@, q) && !has_id(before, q) {
                    let w = choose|w: int| 0 <= w < out@.len() && out@[w].0 == q;
                    if w < before.len() {
                        assert(out@[w] == before[w]);
                    }
                }
                if has_id(before, q) {
                    let w = choose|w: int| 0 <= w < before.len() && before[w].0 == q;
                    assert(out@[w] == before[w]);
                }
            }
        }
        i = i + 1;
    }
    assert(add@.take(add@.len() as int) =~= add@);
}

/// Appends the unseen `z` to `out` and marks it.
fn push_marked(out: &mut Vec<DomNodeId>, seen: &mut Vec<bool>, z: DomNodeId)
    requires
        z.0 < old(seen)@.len(),
        !old(seen)@[z.0 as int],
        distinct_within(old(out)@, old(seen)@.len() as nat),
        forall|k: int| 0 <= k < old(seen)@.len() ==> (#[trigger] old(seen)@[k] <==> has_id(old(out)@, k)),
    ensures
        final(seen)@.len() == old(seen)@.len(),
        final(out)@ == old(out)@.push(z),
        distinct_within(final(out)@, final(seen)@.len() as nat),
        forall|k: int| 0 <= k < final(seen)@.len() ==> (#[trigger] final(seen)@[k] <==> has_id(final(out)@, k)),
{
    let ghost before = out@;
    let n = seen.len();
    out.push(z);
    seen.set(z.0 as usize, true);
    proof {
        assert(!has_id(before, z.0 as int));
        assert forall|q: int| 0 <= q < n implies (#[trigger] seen@[q] <==> has_id(out@, q)) by {
            if q == z.0 {
                assert(out@[before.len() as int] == z);
            } else {
                if has_id(out@, q) {
                    let w = choose|w: int| 0 <= w < out@.len() && out@[w].0 == q;
                    assert(w < before.len());
                    assert(before[w] == out@[w]);
                }
                if has_id(before, q) {
                    let w = choose|w: int| 0 <= w < before.len() && before[w].0 == q;
                    assert(out@[w] == before[w]);
                }
            }
        }
        assert forall|a: int, b: int| 0 <= a < b < out@.len() implies #[trigger] out@[a] != #[trigger] out@[b] by {
            if b == before.len() && out@[a] == z {
                assert(before[a] == z);
            }
        }
    }
}

fn fresh_seen(n: usize) -> (r: Vec<bool>)
    ensures
        r@.len() == n,
        forall|k: int| 0 <= k < n ==> !(#[trigger] r@[k]),
{
    let mut seen: Vec<bool> = Vec::new();
    let mut k: usize = 0;
    while k < n
        invariant
            k <= n,
            seen@.len() == k,
            forall|j: int| 0 <= j < k ==> !(#[trigger] seen@[j]),
        decreases n - k,
    {
        seen.push(false);
        k = k + 1;
    }
    seen
}

fn eval_dir(dom: &Dom, path: &Path, source: DomNodeId, converse: bool, ans: &Answers) -> (r: Vec<DomNodeId>)
    requires
        source.0 < dom@.len(),
        offline_path(*path),
    ensures
        distinct_within(r@, dom@.len()),
        is_basic(*path) ==> r@ == basic_dests(dom@, *path, source.0 as int, converse),
        is_converse_basic(*path) ==> r@ == basic_dests(dom@, *path->Converse_0, source.0 as int, !converse),
        forall|y: int| #[trigger] has_id(r@, y) == reaches(dom@, *path, converse, source.0 as int, y, ans@),
        *path is Test ==> r@ == seq![source] || r@.len() == 0,
        *path is Star && is_single_step(*path->Star_0, converse) ==> {
            &&& forall|k: int| 0 <= k < r@.len() ==> #[trigger] nth_step(dom@, *path->Star_0, converse, source.0 as int, k as nat) == Some(r@[k].0 as usize)
            &&& nth_step(dom@, *path->Star_0, converse, source.0 as int, r@.len()) matches Some(z) ==> has_id(r@, z as int)
        },
        *path is Star && *path->Star_0 is Child && !converse ==> r@ == preorder(dom@, source.0 as int),
        ordered_dests(dom@, *path, converse, source.0 as int, ans@) matches Some(o) ==> r@ == o,
    decreases path, 0nat,
{
    proof {
        use_type_invariant(dom);
    }
    match path {
        Path::Empty => {
            let out: Vec<DomNodeId> = Vec::new();
            assert(out@ =~= Seq::<DomNodeId>::empty());
            proof {
                lemma_basic_reaches(dom@, *path, converse, source.0 as int, out@, ans@);
            }
            out
        },
        Path::Id => {
            let mut out: Vec<DomNodeId> = Vec::new();
            out.push(source);
            proof {
                lemma_basic_reaches(dom@, *path, converse, source.0 as int, out@, ans@);
            }
            out
        },
        Path::Child => {
            if converse {
                proof {
                    if source.0 > 0 {
                        assert(super::dom::child_linked(dom@, source.0 as int));
                    }
                }
                let r = opt_vec(dom.parent(source));
                proof {
                    lemma_basic_reaches(dom@, *path, converse, source.0 as int, r@, ans@);
                }
                r
            } else {
                let r = dom.children(source);
                proof {
                    assert forall|i: int| 0 <= i < r@.len() implies (#[trigger] r@[i]).0 < dom@.len() by {
                        assert(super::dom::parent_linked(dom@, source.0 as int, i));
                    }
                    assert forall|i: int, j: int| 0 <= i < j < r@.len() implies #[trigger] r@[i] != #[trigger] r@[j] by {
                        assert(super::dom::parent_linked(dom@, source.0 as int, i));
                        assert(super::dom::parent_linked(dom@, source.0 as int, j));
                    }
                    lemma_basic_reaches(dom@, *path, converse, source.0 as int, r@, ans@);
                }
                r
            }
        },
        Path::Next => {
            let s = if converse { dom.prev_sibling(source) } else { dom.next_sibling(source) };
            proof {
                if s is Some {
                    let x = source.0 as int;
                    assert(super::dom::child_linked(dom@, x));
                    let p = dom@[x].parent.unwrap() as int;
                    let k = dom@[x].index + if converse { -1int } else { 1int };
                    assert(super::dom::parent_linked(dom@, p, k));
                }
            }
            let r = opt_vec(s);
            proof {
                lemma_basic_reaches(dom@, *path, converse, source.0 as int, r@, ans@);
            }
            r
        },
        Path::Test(test) => {
            let mut out: Vec<DomNodeId> = Vec::new();
            if node_matches(dom, source, test, ans) {
                out.push(source);
            }
            proof {
                assert forall|y: int| #[trigger] has_id(out@, y) == reaches(dom@, *path, converse, source.0 as int, y, ans@) by {
                    if has_id(out@, y) {
                        let w = choose|w: int| 0 <= w < out@.len() && out@[w].0 == y;
                        assert(out@[w] == source);
                    }
                    if reaches(dom@, *path, converse, source.0 as int, y, ans@) {
                        assert(out@[0] == source);
                    }
                }
            }
            out
        },
        Path::Union(left, right) => {
            let a = eval_dir(dom, left, source, converse, ans);
            let b = eval_dir(dom, right, source, converse, ans);
            let mut out: Vec<DomNodeId> = Vec::new();
            let mut seen = fresh_seen(dom.len());
            assert(forall|k: int| !has_id(out@, k));
            push_unseen(&mut out, &mut seen, &a);
            assert(out@ =~= fresh(a@, Seq::empty()));
            push_unseen(&mut out, &mut seen, &b);
            out
        },
        Path::Compose(left, right) => {
            let (first, second) = if converse { (&**right, &**left) } else { (&**left, &**right) };
            let sources = eval_dir(dom, first, source, converse, ans);
            let mut out: Vec<DomNodeId> = Vec::new();
            let mut seen = fresh_seen(dom.len());
            let mut i: usize = 0;
            assert(sources@.take(0) =~= Seq::<DomNodeId>::empty());
            while i < sources.len()
                invariant
                    i <= sources@.len(),
                    distinct_within(sources@, dom@.len()),
                    seen@.len() == dom@.len(),
                    distinct_within(out@, dom@.len()),
                    forall|k: int| 0 <= k < seen@.len() ==> (#[trigger] seen@[k] <==> has_id(out@, k as int)),
                    offline_path(*second),
                    decreases_to!(*path => *second),
                    forall|y: int| #[trigger] has_id(out@, y) == exists|j: int|
                        0 <= j < i && #[trigger] reaches(dom@, *second, converse, sources@[j].0 as int, y, ans@),
                    compose_dests(dom@, *second, converse, sources@, ans@) is Some ==> compose_dests(dom@, *second, converse, sources@.take(i as int), ans@) == Some(out@),
                decreases sources@.len() - i,
            {
                let step = eval_dir(dom, second, sources[i], converse, ans);
                let ghost before = out@;
                push_unseen(&mut out, &mut seen, &step);
                proof {
                    if compose_dests(dom@, *second, converse, sources@, ans@) is Some {
                        lemma_compose_prefix(dom@, *second, converse, sources@, ans@, i as int);
                    }
                    if true {
                        assert forall|y: int| #[trigger] has_id(out@, y) == exists|j: int|
                            0 <= j < i + 1 && #[trigger] reaches(dom@, *second, converse, sources@[j].0 as int, y, ans@) by {
                            if has_id(out@, y) && !has_id(before, y) {
                                assert(reaches(dom@, *second, converse, sources@[i as int].0 as int, y, ans@));
                            }
                        }
                    }
                }
                i = i + 1;
            }
            proof {
                if true {
                    assert forall|y: int| #[trigger] has_id(out@, y) == reaches(dom@, *path, converse, source.0 as int, y, ans@) by {
                        if has_id(out@, y) {
                            let j = choose|j: int| 0 <= j < sources@.len() && #[trigger] reaches(dom@, *second, converse, sources@[j].0 as int, y, ans@);
                            assert(has_id(sources@, sources@[j].0 as int));
                            assert(reaches(dom@, *first, converse, source.0 as int, sources@[j].0 as int, ans@));
                            assert(via(sources@[j].0 as int));
                        }
                        if reaches(dom@, *path, converse, source.0 as int, y, ans@) {
                            assert(*first == if converse { **right } else { **left });
                            assert(*second == if converse { **left } else { **right });
                            let z = choose|z: int| #[trigger] via(z) && reaches(dom@, *first, converse, source.0 as int, z, ans@) && reaches(dom@, *second, converse, z, y, ans@);
                            assert(has_id(sources@, z));
                            let j = choose|j: int| 0 <= j < sources@.len() && sources@[j].0 == z;
                            assert(reaches(dom@, *second, converse, sources@[j].0 as int, y, ans@));
                        }
                    }
                }
                assert(sources@.take(sources@.len() as int) =~= sources@);
            }
            out
        },
        Path::Star(inner) => eval_star(dom, inner, source, converse, ans),
        Path::Converse(inner) => eval_dir(dom, inner, source, !converse, ans),
    }
}

/// `r*`: the descendants-or-self in document order for `C*`, and otherwise the
/// destinations in order of path length (nearest first for parent and previous).
fn eval_star(dom: &Dom, inner: &Path, source: DomNodeId, converse: bool, ans: &Answers) -> (r: Vec<DomNodeId>)
    requires
        source.0 < dom@.len(),
        offline_path(*inner),
    ensures
        distinct_within(r@, dom@.len()),
        r@.len() > 0 && r@[0] == source,
        forall|y: int| #[trigger] has_id(r@, y) == reaches_star(dom@, *inner, converse, source.0 as int, y, ans@),
        is_single_step(*inner, converse) ==> {
            &&& forall|k: int| 0 <= k < r@.len() ==> #[trigger] nth_step(dom@, *inner, converse, source.0 as int, k as nat) == Some(r@[k].0 as usize)
            &&& nth_step(dom@, *inner, converse, source.0 as int, r@.len()) matches Some(z) ==> has_id(r@, z as int)
        },
        !converse && *inner is Child ==> r@ == preorder(dom@, source.0 as int),
    decreases inner, 1nat,
{
    if !converse {
        if let Path::Child = inner {
            return child_star_doc_order(dom, source, ans);
        }
    }
    let n = dom.len();
    let (mut out, mut seen) = start_at(n, source);
    proof {
        assert forall|y: int| #[trigger] has_id(out@, y) implies reaches_star(dom@, *inner, converse, source.0 as int, y, ans@) by {
            let w = choose|w: int| 0 <= w < out@.len() && out@[w].0 == y;
            assert(out@[w] == source);
            assert(repetitions(0));
            assert(reaches_in(dom@, *inner, converse, source.0 as int, y, 0, ans@));
        }
    }
    let mut i: usize = 0;
    while i < out.len()
        invariant
            n == dom@.len(),
            seen@.len() == n,
            i <= out@.len(),
            out@.len() > 0 && out@[0] == source,
            distinct_within(out@, n as nat),
            forall|k: int| 0 <= k < n ==> (#[trigger] seen@[k] <==> has_id(out@, k as int)),
            offline_path(*inner),
            forall|y: int| #[trigger] has_id(out@, y) ==> reaches_star(dom@, *inner, converse, source.0 as int, y, ans@),
            forall|j: int, y: int|
                0 <= j < i && #[trigger] reaches(dom@, *inner, converse, out@[j].0 as int, y, ans@) ==> has_id(out@, y),
            is_single_step(*inner, converse) ==> {
                &&& out@.len() <= i + 1
                &&& forall|k: int| 0 <= k < out@.len() ==> #[trigger] nth_step(dom@, *inner, converse, source.0 as int, k as nat) == Some(out@[k].0 as usize)
                &&& i == out@.len() ==> (nth_step(dom@, *inner, converse, source.0 as int, out@.len()) matches Some(z) ==> has_id(out@, z as int))
            },
        decreases n - i,
    {
        proof {
            lemma_distinct_len(out@, n as nat);
        }
        let from = out[i];
        let step = eval_dir(dom, inner, from, converse, ans);
        let ghost before = out@;
        push_unseen(&mut out, &mut seen, &step);
        proof {
            if true {
                let x = source.0 as int;
                assert(has_id(before, from.0 as int));
                assert(reaches_star(dom@, *inner, converse, x, from.0 as int, ans@));
                let k0 = choose|k: nat| #[trigger] repetitions(k) && reaches_in(dom@, *inner, converse, x, from.0 as int, k, ans@);
                assert forall|y: int| #[trigger] has_id(out@, y) implies reaches_star(dom@, *inner, converse, x, y, ans@) by {
                    if !has_id(before, y) {
                        assert(has_id(step@, y));
                        assert(via(from.0 as int));
                        assert(reaches_in(dom@, *inner, converse, x, y, k0 + 1, ans@));
                        assert(repetitions(k0 + 1));
                    }
                }
                assert forall|j: int, y: int|
                    0 <= j < i + 1 && #[trigger] reaches(dom@, *inner, converse, out@[j].0 as int, y, ans@) implies has_id(out@, y) by {
                    assert(out@[j] == before[j]);
                    if j == i {
                        assert(has_id(step@, y));
                    }
                }
            }
            if is_single_step(*inner, converse) {
                let x = source.0 as int;
                lemma_single_step_dests(dom@, *inner, converse, from.0 as int);
                let s1 = single_step(dom@, *inner, converse, from.0 as int);
                assert(step@ == opt_ids(s1));
                assert(i == before.len() - 1);
                assert(nth_step(dom@, *inner, converse, x, i as nat) == Some(from.0 as usize));
                assert(nth_step(dom@, *inner, converse, x, (i + 1) as nat) == s1);
                match s1 {
                    None => {
                        assert(step@.len() == 0);
                        assert(out@ =~= before);
                    },
                    Some(y) => {
                        let c = DomNodeId(y as u64);
                        assert(step@ =~= seq![c]);
                        assert(step@.drop_last() =~= Seq::<DomNodeId>::empty());
                        assert(fresh(step@.drop_last(), before) == Seq::<DomNodeId>::empty());
                        assert(before + Seq::<DomNodeId>::empty() =~= before);
                        assert(step@.last() == c);
                        assert(c.0 as int == y as int);
                        if has_id(before, y as int) {
                            assert(out@ =~= before);
                        } else {
                            assert(out@ =~= before.push(c));
                            assert(out@[i + 1] == c);
                        }
                    },
                }
                assert forall|k: int| 0 <= k < out@.len() implies #[trigger] nth_step(dom@, *inner, converse, x, k as nat) == Some(out@[k].0 as usize) by {
                    if k < before.len() {
                        assert(out@[k] == before[k]);
                    }
                }
            }
        }
        i = i + 1;
    }
    proof {
        if true {
            let x = source.0 as int;
            assert forall|z: int, y: int| has_id(out@, z) && #[trigger] reaches(dom@, *inner, converse, z, y, ans@) implies has_id(out@, y) by {
                let j = choose|j: int| 0 <= j < out@.len() && out@[j].0 == z;
                assert(reaches(dom@, *inner, converse, out@[j].0 as int, y, ans@));
            }
            assert forall|y: int| #[trigger] has_id(out@, y) == reaches_star(dom@, *inner, converse, x, y, ans@) by {
                if reaches_star(dom@, *inner, converse, x, y, ans@) {
                    let k = choose|k: nat| #[trigger] repetitions(k) && reaches_in(dom@, *inner, converse, x, y, k, ans@);
                    assert(out@[0] == source);
                    lemma_closed_reaches(dom@, *inner, converse, out@, x, y, k, ans@);
                }
            }
        }
    }
    out
}

/// A list that holds `x` and every destination of `q` from its members holds every
/// node that some number of `q` steps reaches from `x`.
proof fn lemma_closed_reaches(d: Seq<NodeM>, q: Path, converse: bool, out: Seq<DomNodeId>, x: int, y: int, k: nat, ans: Seq<(Seq<char>, Seq<bool>)>)
    requires
        has_id(out, x),
        forall|z: int, w: int| has_id(out, z) && #[trigger] reaches(d, q, converse, z, w, ans) ==> has_id(out, w),
        reaches_in(d, q, converse, x, y, k, ans),
    ensures
        has_id(out, y),
    decreases k,
{
    if k > 0 {
        let z = choose|z: int| #[trigger] via(z) && reaches_in(d, q, converse, x, z, (k - 1) as nat, ans) && reaches(d, q, converse, z, y, ans);
        lemma_closed_reaches(d, q, converse, out, x, z, (k - 1) as nat, ans);
    }
}

/// Distinct ids inside a document of `n` nodes are at most `n`.
proof fn lemma_distinct_len(s: Seq<DomNodeId>, n: nat)
    requires
        distinct_within(s, n),
    ensures
        s.len() <= n,
{
    let ks = s.map_values(|x: DomNodeId| x.0 as int).to_set();
    assert(ks.subset_of(Set::new(|k: int| 0 <= k < n)));
    vstd::set_lib::lemma_int_range(0, n as int);
    assert(Set::new(|k: int| 0 <= k < n) =~= vstd::set_lib::set_int_range(0, n as int));
    vstd::set_lib::lemma_len_subset(ks, vstd::set_lib::set_int_range(0, n as int));
    let m = s.map_values(|x: DomNodeId| x.0 as int);
    assert forall|i: int, j: int| 0 <= i < j < m.len() implies m[i] != m[j] by {
        assert(s[i] != s[j]);
    }
    assert(m.no_duplicates());
    m.unique_seq_to_set();
}

/// `C*` from `source`: the source, then its descendants in document (pre-)order.
fn child_star_doc_order(dom: &Dom, source: DomNodeId, ans: &Answers) -> (r: Vec<DomNodeId>)
    requires
        source.0 < dom@.len(),
    ensures
        distinct_within(r@, dom@.len()),
        r@.len() > 0 && r@[0] == source,
        forall|y: int| #[trigger] has_id(r@, y) == reaches_star(dom@, Path::Child, false, source.0 as int, y, ans@),
        r@ == preorder(dom@, source.0 as int),
{
    proof {
        use_type_invariant(dom);
    }
    let ghost x0 = source.0 as int;
    let n = dom.len();
    let (mut out, mut seen) = start_at(n, source);
    // Pending nodes, next on top; every pending node is marked seen but not yet output.
    let mut stack: Vec<DomNodeId> = Vec::new();
    let mut kids = dom.children(source);
    let ghost all_kids = kids@;
    proof {
        assert forall|j: int| 0 <= j < kids@.len() implies (#[trigger] kids@[j]).0 < n by {
            assert(super::dom::parent_linked(dom@, source.0 as int, j));
        }
        assert(out@ + stack@ =~= out@);
        assert forall|y: int| #[trigger] has_id(out@ + stack@, y) implies reaches_star(dom@, Path::Child, false, x0, y, ans@) by {
            let w = choose|w: int| 0 <= w < out@.len() && out@[w].0 == y;
            assert(out@[w] == source);
            assert(repetitions(0));
            assert(reaches_in(dom@, Path::Child, false, x0, y, 0, ans@));
        }
        assert(kids@.take(kids@.len() as int) =~= all_kids);
        assert(preorder_from(dom@, x0, all_kids.len() as int) =~= Seq::<DomNodeId>::empty());
    }
    while kids.len() > 0
        invariant
            dom.wf(),
            n == dom@.len(),
            seen@.len() == n,
            out@ == seq![source],
            pending(dom@, stack@) == preorder_from(dom@, x0, kids@.len() as int),
            x0 == source.0 as int,
            distinct_within(out@ + stack@, n as nat),
            forall|k: int| 0 <= k < n ==> (#[trigger] seen@[k] <==> has_id(out@ + stack@, k as int)),
            forall|j: int| 0 <= j < kids@.len() ==> (#[trigger] kids@[j]).0 < n,
            all_kids == spec_children_ids(dom@, x0),
            kids@ == all_kids.take(kids@.len() as int),
            kids@.len() <= all_kids.len(),
            forall|y: int| #[trigger] has_id(out@ + stack@, y) ==> reaches_star(dom@, Path::Child, false, x0, y, ans@),
            forall|w: int| #[trigger] has_id(all_kids, w) ==> has_id(kids@, w) || has_id(out@ + stack@, w),
        decreases kids@.len(),
    {
        let ghost before_kids = kids@;
        let ghost before_all = out@ + stack@;
        let ghost before_stack = stack@;
        proof {
            assert(before_all[0] == source);
        }
        let c = kids.pop().unwrap();
        let k = c.0 as usize;
        proof {
            let m = before_kids.len() as int;
            lemma_dfs_next_child(dom@, x0, all_kids, before_kids, c);
            assert(pending(dom@, stack@) == preorder_from(dom@, x0, m));
            assert(super::dom::parent_linked(dom@, x0, m - 1));
            assert(super::dom::child_linked(dom@, c.0 as int));
            lemma_earlier_child_not_later(dom@, x0, m);
            lemma_stack_bounded(out@, stack@, n as nat);
            if has_id(stack@, c.0 as int) {
                lemma_stack_in_pending(dom@, stack@, c.0 as int);
            }
            lemma_has_id_concat(out@, stack@, c.0 as int);
            if has_id(out@, c.0 as int) {
                let w = choose|w: int| 0 <= w < out@.len() && out@[w].0 == c.0 as int;
                assert(out@[w] == source);
            }
            assert(!seen@[k as int]);
        }
        let ghost pushed = !seen[k as int];
        if !seen[k] {
            push_pending(&mut stack, &mut seen, &out, c);
        }
        proof {
            lemma_after_pending(before_all, out@ + stack@, c, pushed);
            lemma_pending_step(dom@, x0, source, all_kids, before_kids, kids@, c, before_all, out@ + stack@, ans@);
            let m = before_kids.len() as int;
            lemma_from_step(dom@, x0, m - 1);
            assert(stack@.drop_last() =~= before_stack);
        }
    }
    proof {
        assert forall|z: int, w: int| has_id(out@, z) && #[trigger] reaches(dom@, Path::Child, false, z, w, ans@) implies has_id(out@ + stack@, w) by {
            let j = choose|j: int| 0 <= j < out@.len() && out@[j].0 == z;
            assert(out@[j] == source);
            assert(has_id(all_kids, w));
        }
    }
    while stack.len() > 0
        invariant
            dom.wf(),
            n == dom@.len(),
            seen@.len() == n,
            out@.len() > 0 && out@[0] == source,
            x0 == source.0 as int,
            distinct_within(out@ + stack@, n as nat),
            forall|k: int| 0 <= k < n ==> (#[trigger] seen@[k] <==> has_id(out@ + stack@, k as int)),
            forall|y: int| #[trigger] has_id(out@ + stack@, y) ==> reaches_star(dom@, Path::Child, false, x0, y, ans@),
            forall|z: int, w: int| has_id(out@, z) && #[trigger] reaches(dom@, Path::Child, false, z, w, ans@) ==> has_id(out@ + stack@, w),
            out@ + pending(dom@, stack@) == preorder(dom@, x0),
        decreases n - out@.len(),
    {
        proof {
            lemma_distinct_len(out@ + stack@, n as nat);
        }
        let ghost before_stack = stack@;
        let x = stack.pop().unwrap();
        let ghost before_out = out@;
        assert(stack@.push(x) =~= before_stack);
        out.push(x);
        proof {
            lemma_move_last(before_out, before_stack, n as nat);
            assert(before_stack.drop_last() =~= stack@);
            assert(before_stack.last() == x);
            assert(out@ + stack@ == before_out.push(before_stack.last()) + before_stack.drop_last());
            assert forall|y: int| #[trigger] has_id(out@ + stack@, y) implies reaches_star(dom@, Path::Child, false, x0, y, ans@) by {
                assert(has_id(before_out + before_stack, y));
            }
        }
        let mut kids = dom.children(x);
        let ghost all_kids = kids@;
        let ghost rest_stack = stack@;
        proof {
            assert forall|j: int| 0 <= j < kids@.len() implies (#[trigger] kids@[j]).0 < n by {
                assert(super::dom::parent_linked(dom@, x.0 as int, j));
            }
            assert(kids@.take(kids@.len() as int) =~= all_kids);
            lemma_stack_bounded(before_out, before_stack, n as nat);
            assert(pending(dom@, before_stack) == preorder(dom@, x.0 as int) + pending(dom@, rest_stack));
            assert(out@ + preorder_from(dom@, x.0 as int, 0) + pending(dom@, rest_stack) =~= before_out + pending(dom@, before_stack));
            assert(preorder_from(dom@, x.0 as int, all_kids.len() as int) =~= Seq::<DomNodeId>::empty());
            assert(pending(dom@, stack@) =~= preorder_from(dom@, x.0 as int, all_kids.len() as int) + pending(dom@, rest_stack));
            assert(has_id(before_out + before_stack, x.0 as int)) by {
                assert((before_out + before_stack)[before_out.len() + before_stack.len() - 1] == x);
            }
            assert forall|z: int, w: int| has_id(out@, z) && z != x.0 && #[trigger] reaches(dom@, Path::Child, false, z, w, ans@) implies has_id(out@ + stack@, w) by {
                let j = choose|j: int| 0 <= j < out@.len() && out@[j].0 == z;
                if j < before_out.len() {
                    assert(out@[j] == before_out[j]);
                    assert(has_id(before_out, z));
                }
            }
        }
        while kids.len() > 0
            invariant
                n == dom@.len(),
                seen@.len() == n,
                out@.len() > 0 && out@[0] == source,
                out@.last() == x,
                x0 == source.0 as int,
                distinct_within(out@ + stack@, n as nat),
                forall|k: int| 0 <= k < n ==> (#[trigger] seen@[k] <==> has_id(out@ + stack@, k as int)),
                forall|j: int| 0 <= j < kids@.len() ==> (#[trigger] kids@[j]).0 < n,
                x.0 < n,
                all_kids == spec_children_ids(dom@, x.0 as int),
                kids@ == all_kids.take(kids@.len() as int),
                kids@.len() <= all_kids.len(),
                forall|y: int| #[trigger] has_id(out@ + stack@, y) ==> reaches_star(dom@, Path::Child, false, x0, y, ans@),
                forall|z: int, w: int| has_id(out@, z) && z != x.0 && #[trigger] reaches(dom@, Path::Child, false, z, w, ans@) ==> has_id(out@ + stack@, w),
                forall|w: int| #[trigger] has_id(all_kids, w) ==> has_id(kids@, w) || has_id(out@ + stack@, w),
                dom.wf(),
                out@ + preorder_from(dom@, x.0 as int, 0) + pending(dom@, rest_stack) == preorder(dom@, x0),
                pending(dom@, stack@) == preorder_from(dom@, x.0 as int, kids@.len() as int) + pending(dom@, rest_stack),
            decreases kids@.len(),
        {
            let ghost before_kids = kids@;
            let ghost before_all = out@ + stack@;
            let ghost before_stack2 = stack@;
            proof {
                assert(before_all[out@.len() - 1] == x);
            }
            let c = kids.pop().unwrap();
            let k = c.0 as usize;
            proof {
                let m = before_kids.len() as int;
                let xi = x.0 as int;
                let f0 = preorder_from(dom@, xi, 0);
                let pr = pending(dom@, rest_stack);
                lemma_dfs_next_child(dom@, xi, all_kids, before_kids, c);
                lemma_preorder_distinct(dom@, x0);
                lemma_child_in_from(dom@, xi, 0, m - 1);
                assert(out@ + f0 + pr == out@ + (f0 + pr));
                lemma_has_id_concat(f0, pr, c.0 as int);
                lemma_distinct_parts(out@, f0 + pr, n as nat, c.0 as int);
                lemma_has_id_concat(out@, f0, c.0 as int);
                if has_id(pr, c.0 as int) {
                    lemma_distinct_parts(out@ + f0, pr, n as nat, c.0 as int);
                }
                lemma_earlier_child_not_later(dom@, xi, m);
                lemma_stack_bounded(out@, stack@, n as nat);
                lemma_has_id_concat(preorder_from(dom@, xi, m), pr, c.0 as int);
                if has_id(stack@, c.0 as int) {
                    lemma_stack_in_pending(dom@, stack@, c.0 as int);
                }
                lemma_has_id_concat(out@, stack@, c.0 as int);
                assert(!seen@[k as int]);
            }
            let ghost pushed = !seen[k as int];
            if !seen[k] {
                push_pending(&mut stack, &mut seen, &out, c);
            }
            proof {
                lemma_after_pending(before_all, out@ + stack@, c, pushed);
                lemma_pending_step(dom@, x0, x, all_kids, before_kids, kids@, c, before_all, out@ + stack@, ans@);
                let m = before_kids.len() as int;
                lemma_from_step(dom@, x.0 as int, m - 1);
                assert(stack@.drop_last() =~= before_stack2);
            }
        }
        proof {
            assert forall|z: int, w: int| has_id(out@, z) && #[trigger] reaches(dom@, Path::Child, false, z, w, ans@) implies has_id(out@ + stack@, w) by {
                if z == x.0 {
                    assert(has_id(all_kids, w));
                }
            }
        }
    }
    proof {
        assert(out@ + stack@ =~= out@);
        assert(out@ + pending(dom@, stack@) =~= out@);
        assert forall|y: int| #[trigger] has_id(out@, y) == reaches_star(dom@, Path::Child, false, x0, y, ans@) by {
            if reaches_star(dom@, Path::Child, false, x0, y, ans@) {
                let k = choose|k: nat| #[trigger] repetitions(k) && reaches_in(dom@, Path::Child, false, x0, y, k, ans@);
                assert(out@[0] == source);
                lemma_closed_reaches(dom@, Path::Child, false, out@, x0, y, k, ans@);
            }
        }
    }
    out
}

/// After a child is pushed when unseen, or skipped when already listed, the listed
/// nodes are the earlier ones and the child.
proof fn lemma_after_pending(before: Seq<DomNodeId>, after: Seq<DomNodeId>, c: DomNodeId, pushed: bool)
    requires
        pushed ==> after == before.push(c),
        !pushed ==> after == before && has_id(before, c.0 as int),
    ensures
        forall|y: int| #[trigger] has_id(after, y) == (has_id(before, y) || y == c.0),
{
    assert forall|y: int| #[trigger] has_id(after, y) == (has_id(before, y) || y == c.0) by {
        if pushed {
            assert(after[before.len() as int] == c);
            if has_id(before, y) {
                let w = choose|w: int| 0 <= w < before.len() && before[w].0 == y;
                assert(after[w] == before[w]);
            }
            if has_id(after, y) {
                let w = choose|w: int| 0 <= w < after.len() && after[w].0 == y;
                if w < before.len() {
                    assert(after[w] == before[w]);
                }
            }
        }
    }
}

/// One child popped from the pending list of `x`'s children: it is reached from the
/// source, and every child of `x` is still either pending or listed.
proof fn lemma_pending_step(
    d: Seq<NodeM>,
    x0: int,
    x: DomNodeId,
    all_kids: Seq<DomNodeId>,
    before_kids: Seq<DomNodeId>,
    kids: Seq<DomNodeId>,
    c: DomNodeId,
    before_all: Seq<DomNodeId>,
    after_all: Seq<DomNodeId>,
    ans: Seq<(Seq<char>, Seq<bool>)>,
)
    requires
        all_kids == spec_children_ids(d, x.0 as int),
        before_kids.len() > 0,
        before_kids == all_kids.take(before_kids.len() as int),
        before_kids.len() <= all_kids.len(),
        kids == before_kids.drop_last(),
        c == before_kids.last(),
        has_id(before_all, x.0 as int),
        forall|y: int| #[trigger] has_id(before_all, y) ==> reaches_star(d, Path::Child, false, x0, y, ans),
        forall|w: int| #[trigger] has_id(all_kids, w) ==> has_id(before_kids, w) || has_id(before_all, w),
        forall|y: int| #[trigger] has_id(after_all, y) == (has_id(before_all, y) || y == c.0),
    ensures
        kids == all_kids.take(kids.len() as int),
        forall|y: int| #[trigger] has_id(after_all, y) ==> reaches_star(d, Path::Child, false, x0, y, ans),
        forall|w: int| #[trigger] has_id(all_kids, w) ==> has_id(kids, w) || has_id(after_all, w),
        forall|y: int| #[trigger] has_id(before_all, y) ==> has_id(after_all, y),
{
    assert(kids =~= all_kids.take(kids.len() as int));
    let last = before_kids.len() - 1;
    assert(all_kids[last] == c);
    assert(has_id(all_kids, c.0 as int));
    assert(reaches(d, Path::Child, false, x.0 as int, c.0 as int, ans));
    let k0 = choose|k: nat| #[trigger] repetitions(k) && reaches_in(d, Path::Child, false, x0, x.0 as int, k, ans);
    assert(via(x.0 as int));
    assert(reaches_in(d, Path::Child, false, x0, c.0 as int, k0 + 1, ans));
    assert(repetitions(k0 + 1));
    assert forall|w: int| #[trigger] has_id(all_kids, w) implies has_id(kids, w) || has_id(after_all, w) by {
        if has_id(before_kids, w) && !has_id(kids, w) {
            let j = choose|j: int| 0 <= j < before_kids.len() && before_kids[j].0 == w;
            if j < kids.len() {
                assert(kids[j] == before_kids[j]);
            } else {
                assert(j == last);
            }
        }
    }
}

/// The child popped from the pending list of `x`'s children is its child at that position.
proof fn lemma_dfs_next_child(d: Seq<NodeM>, x: int, all_kids: Seq<DomNodeId>, before_kids: Seq<DomNodeId>, c: DomNodeId)
    requires
        tree_wf(d),
        0 <= x < d.len(),
        all_kids == spec_children_ids(d, x),
        before_kids.len() > 0,
        before_kids == all_kids.take(before_kids.len() as int),
        before_kids.len() <= all_kids.len(),
        c == before_kids.last(),
    ensures
        before_kids.len() <= d[x].children.len(),
        c.0 as int == d[x].children[before_kids.len() - 1] as int,
{
    let m = before_kids.len() - 1;
    assert(all_kids[m] == c);
    assert(super::dom::parent_linked(d, x, m));
}

/// The nodes of a stack lie in the document.
proof fn lemma_stack_bounded(out: Seq<DomNodeId>, stack: Seq<DomNodeId>, n: nat)
    requires
        distinct_within(out + stack, n),
    ensures
        forall|i: int| 0 <= i < stack.len() ==> (#[trigger] stack[i]).0 < n,
{
    assert forall|i: int| 0 <= i < stack.len() implies (#[trigger] stack[i]).0 < n by {
        assert((out + stack)[out.len() + i] == stack[i]);
    }
}

/// Moving the last pending node to the output keeps the nodes, and their distinctness.
proof fn lemma_move_last(a: Seq<DomNodeId>, s: Seq<DomNodeId>, n: nat)
    requires
        s.len() > 0,
        distinct_within(a + s, n),
    ensures
        distinct_within(a.push(s.last()) + s.drop_last(), n),
        forall|k: int| has_id(a.push(s.last()) + s.drop_last(), k) <==> has_id(a + s, k),
{
    let u = a + s;
    let t = a.push(s.last()) + s.drop_last();
    assert(t.len() == u.len());
    let f = |i: int| if i < a.len() { i } else if i == a.len() { u.len() - 1 } else { i - 1 };
    assert forall|i: int| 0 <= i < t.len() implies #[trigger] t[i] == u[f(i)] && 0 <= f(i) < u.len() by {}
    assert forall|i: int| 0 <= i < t.len() implies (#[trigger] t[i]).0 < n by {
        assert(t[i] == u[f(i)]);
    }
    assert forall|i: int, j: int| 0 <= i < j < t.len() implies #[trigger] t[i] != #[trigger] t[j] by {
        assert(t[i] == u[f(i)]);
        assert(t[j] == u[f(j)]);
        if f(i) < f(j) {
            assert(u[f(i)] != u[f(j)]);
        } else {
            assert(u[f(j)] != u[f(i)]);
        }
    }
    assert forall|k: int| has_id(t, k) <==> has_id(u, k) by {
        if has_id(t, k) {
            let i = choose|i: int| 0 <= i < t.len() && t[i].0 == k;
            assert(t[i] == u[f(i)]);
        }
        if has_id(u, k) {
            let w = choose|w: int| 0 <= w < u.len() && u[w].0 == k;
            let i = if w < a.len() { w } else if w == u.len() - 1 { a.len() as int } else { w + 1 };
            assert(f(i) == w);
            assert(t[i] == u[f(i)]);
        }
    }
}

/// Pushes `c` on the pending stack and marks it seen.
fn push_pending(stack: &mut Vec<DomNodeId>, seen: &mut Vec<bool>, out: &Vec<DomNodeId>, c: DomNodeId)
    requires
        c.0 < old(seen)@.len(),
        !old(seen)@[c.0 as int],
        distinct_within(out@ + old(stack)@, old(seen)@.len() as nat),
        forall|k: int| 0 <= k < old(seen)@.len() ==> (#[trigger] old(seen)@[k] <==> has_id(out@ + old(stack)@, k)),
    ensures
        final(seen)@.len() == old(seen)@.len(),
        final(stack)@ == old(stack)@.push(c),
        distinct_within(out@ + final(stack)@, final(seen)@.len() as nat),
        forall|k: int| 0 <= k < final(seen)@.len() ==> (#[trigger] final(seen)@[k] <==> has_id(out@ + final(stack)@, k)),
{
    let ghost all = out@ + stack@;
    let n = seen.len();
    stack.push(c);
    seen.set(c.0 as usize, true);
    proof {
        let t = out@ + stack@;
        assert(t =~= all.push(c));
        assert(!has_id(all, c.0 as int));
        assert forall|q: int| 0 <= q < n implies (#[trigger] seen@[q] <==> has_id(t, q)) by {
            if q == c.0 {
                assert(t[all.len() as int] == c);
            } else {
                if has_id(t, q) {
                    let w = choose|w: int| 0 <= w < t.len() && t[w].0 == q;
                    assert(w < all.len());
                    assert(all[w] == t[w]);
                }
                if has_id(all, q) {
                    let w = choose|w: int| 0 <= w < all.len() && all[w].0 == q;
                    assert(t[w] == all[w]);
                }
            }
        }
        assert forall|a: int, b: int| 0 <= a < b < t.len() implies #[trigger] t[a] != #[trigger] t[b] by {
            if b == all.len() && t[a] == c {
                assert(all[a] == c);
            }
        }
    }
}

/// Whether node `id` passes `test`.
fn node_matches(dom: &Dom, id: DomNodeId, test: &NodeTest, ans: &Answers) -> (r: bool)
    requires
        offline_test(*test),
        id.0 < dom@.len(),
    ensures
        r == test_at(*test, id.0 as int, ans@),
    decreases test,
{
    match test {
        NodeTest::False => false,
        NodeTest::True => true,
        NodeTest::Not(inner) => !node_matches(dom, id, inner, ans),
        NodeTest::Or(a, b) => node_matches(dom, id, a, ans) || node_matches(dom, id, b, ans),
        NodeTest::And(a, b) => node_matches(dom, id, a, ans) && node_matches(dom, id, b, ans),
        NodeTest::Match(pattern) => {
            let steps = pattern.steps();
            let n = dom.len();
            proof {
                assert(steps_view(steps@)[0] == steps@[0]@);
            }
            match &steps[0] {
                crate::matcher::step::Step::Filter(css, _) => answer_of(ans, css.as_str(), id.0 as usize),
                _ => false,
            }
        },
    }
}

/// The answer of selector `css` on node `y`.
pub fn answer_of(ans: &Answers, css: &str, y: usize) -> (r: bool)
    ensures
        r == answer(ans@, css@, y as int),
{
    let ghost all = ans@;
    let mut k: usize = 0;
    assert(all.skip(0) =~= all);
    while k < ans.entries.len()
        invariant
            k <= ans.entries@.len(),
            all == ans@,
            answer(all, css@, y as int) == answer(all.skip(k as int), css@, y as int),
        decreases ans.entries@.len() - k,
    {
        let e = &ans.entries[k];
        proof {
            assert(all.skip(k as int)[0] == all[k as int]);
            assert(all[k as int] == (e.0@, e.1@));
            assert(all.skip(k as int).drop_first() =~= all.skip(k + 1));
        }
        if super::dom::same_text(e.0.as_str(), css) {
            return y < e.1.len() && e.1[y];
        }
        k += 1;
    }
    assert(all.skip(k as int) =~= Seq::<(Seq<char>, Seq<bool>)>::empty());
    false
}

/// The selector text of a matcher test's first step, if it is a filter.
pub open spec fn first_css(steps: Seq<StepM>) -> Option<Seq<char>> {
    if steps.len() > 0 {
        match steps[0] {
            StepM::Filter(css, _) => Some(css),
            _ => None,
        }
    } else {
        None
    }
}

/// The answers of the selectors of `t`'s matchers on the document parsed from `source`,
/// one entry per matcher, left to right.
pub open spec fn test_answers(source: Seq<char>, fragment: bool, t: NodeTest) -> Seq<(Seq<char>, Seq<bool>)>
    decreases t,
{
    match t {
        NodeTest::Match(p) => match first_css(p.spec_steps()) {
            Some(css) => seq![(css, css_answers(source, fragment, css))],
            None => Seq::empty(),
        },
        NodeTest::Not(a) => test_answers(source, fragment, *a),
        NodeTest::Or(a, b) => test_answers(source, fragment, *a) + test_answers(source, fragment, *b),
        NodeTest::And(a, b) => test_answers(source, fragment, *a) + test_answers(source, fragment, *b),
        _ => Seq::empty(),
    }
}

/// The answers of the selectors of `p`'s matcher tests on the document parsed from
/// `source`, one entry per matcher, left to right.
pub open spec fn path_answers(source: Seq<char>, fragment: bool, p: Path) -> Seq<(Seq<char>, Seq<bool>)>
    decreases p,
{
    match p {
        Path::Test(t) => test_answers(source, fragment, t),
        Path::Union(a, b) => path_answers(source, fragment, *a) + path_answers(source, fragment, *b),
        Path::Compose(a, b) => path_answers(source, fragment, *a) + path_answers(source, fragment, *b),
        Path::Star(a) => path_answers(source, fragment, *a),
        Path::Converse(a) => path_answers(source, fragment, *a),
        _ => Seq::empty(),
    }
}

/// Every matcher selector of `t` parses.
pub open spec fn test_selectors_parse(t: NodeTest) -> bool
    decreases t,
{
    match t {
        NodeTest::Match(p) => match first_css(p.spec_steps()) {
            Some(css) => css_parses(css),
            None => true,
        },
        NodeTest::Not(a) => test_selectors_parse(*a),
        NodeTest::Or(a, b) => test_selectors_parse(*a) && test_selectors_parse(*b),
        NodeTest::And(a, b) => test_selectors_parse(*a) && test_selectors_parse(*b),
        _ => true,
    }
}

/// Every matcher selector of `p`'s tests parses.
pub open spec fn path_selectors_parse(p: Path) -> bool
    decreases p,
{
    match p {
        Path::Test(t) => test_selectors_parse(t),
        Path::Union(a, b) => path_selectors_parse(*a) && path_selectors_parse(*b),
        Path::Compose(a, b) => path_selectors_parse(*a) && path_selectors_parse(*b),
        Path::Star(a) => path_selectors_parse(*a),
        Path::Converse(a) => path_selectors_parse(*a),
        _ => true,
    }
}

/// Whether every matcher selector of `test` parses.
pub fn test_parses(test: &NodeTest) -> (r: bool)
    ensures
        r == test_selectors_parse(*test),
    decreases test,
{
    match test {
        NodeTest::Match(pattern) => {
            let steps = pattern.steps();
            proof {
                if steps@.len() > 0 {
                    assert(steps_view(steps@)[0] == steps@[0]@);
                }
            }
            if steps.len() > 0 {
                if let crate::matcher::step::Step::Filter(css, _) = &steps[0] {
                    return selector_parses(css.as_str());
                }
            }
            true
        },
        NodeTest::Not(a) => test_parses(a),
        NodeTest::Or(a, b) => test_parses(a) && test_parses(b),
        NodeTest::And(a, b) => test_parses(a) && test_parses(b),
        _ => true,
    }
}

/// Whether every matcher selector of `path`'s tests parses.
pub fn path_parses(path: &Path) -> (r: bool)
    ensures
        r == path_selectors_parse(*path),
    decreases path,
{
    match path {
        Path::Test(t) => test_parses(t),
        Path::Union(a, b) => path_parses(a) && path_parses(b),
        Path::Compose(a, b) => path_parses(a) && path_parses(b),
        Path::Star(a) => path_parses(a),
        Path::Converse(a) => path_parses(a),
        _ => true,
    }
}

/// Adds the answers, on every node of `dom`, of the selectors of `path`'s matcher tests.
pub fn add_path_answers(dom: &Dom, path: &Path, ans: &mut Answers)
    ensures
        final(ans)@ == old(ans)@ + path_answers(dom.spec_source(), dom.spec_fragment(), *path),
    decreases path,
{
    let ghost src = dom.spec_source();
    let ghost frag = dom.spec_fragment();
    match path {
        Path::Test(t) => add_test_answers(dom, t, ans),
        Path::Union(a, b) => {
            add_path_answers(dom, a, ans);
            add_path_answers(dom, b, ans);
            assert(ans@ =~= old(ans)@ + path_answers(src, frag, *path));
        },
        Path::Compose(a, b) => {
            add_path_answers(dom, a, ans);
            add_path_answers(dom, b, ans);
            assert(ans@ =~= old(ans)@ + path_answers(src, frag, *path));
        },
        Path::Star(a) => add_path_answers(dom, a, ans),
        Path::Converse(a) => add_path_answers(dom, a, ans),
        _ => {
            assert(ans@ =~= old(ans)@ + path_answers(src, frag, *path));
        },
    }
}

/// Adds the answers, on every node of `dom`, of the selectors of `test`'s matchers.
pub fn add_test_answers(dom: &Dom, test: &NodeTest, ans: &mut Answers)
    ensures
        final(ans)@ == old(ans)@ + test_answers(dom.spec_source(), dom.spec_fragment(), *test),
    decreases test,
{
    let ghost src = dom.spec_source();
    let ghost frag = dom.spec_fragment();
    match test {
        NodeTest::Match(pattern) => {
            let steps = pattern.steps();
            proof {
                if steps@.len() > 0 {
                    assert(steps_view(steps@)[0] == steps@[0]@);
                }
            }
            if steps.len() > 0 {
                if let crate::matcher::step::Step::Filter(css, _) = &steps[0] {
                    let answers = dom.selector_answers(css.as_str());
                    ans.entries.push((css.clone(), answers));
                    assert(ans@ =~= old(ans)@ + test_answers(src, frag, *test));
                    return;
                }
            }
            assert(ans@ =~= old(ans)@ + test_answers(src, frag, *test));
        },
        NodeTest::Not(a) => add_test_answers(dom, a, ans),
        NodeTest::Or(a, b) => {
            add_test_answers(dom, a, ans);
            add_test_answers(dom, b, ans);
            assert(ans@ =~= old(ans)@ + test_answers(src, frag, *test));
        },
        NodeTest::And(a, b) => {
            add_test_answers(dom, a, ans);
            add_test_answers(dom, b, ans);
            assert(ans@ =~= old(ans)@ + test_answers(src, frag, *test));
        },
        _ => {
            assert(ans@ =~= old(ans)@ + test_answers(src, frag, *test));
        },
    }
}

/// Destinations of `path` from `source`, in axis-rank order, with each selector test
/// answered by scraper on `dom`.
pub fn eval(dom: &Dom, path: &Path, source: DomNodeId) -> (r: Vec<DomNodeId>)
    requires
        source.0 < dom@.len(),
        offline_path(*path),
        path_selectors_parse(*path),
    ensures
        path_result(dom@, *path, source.0 as int, r@, path_answers(dom.spec_source(), dom.spec_fragment(), *path)),
{
    let mut ans = Answers { entries: Vec::new() };
    add_path_answers(dom, path, &mut ans);
    assert(ans@ =~= path_answers(dom.spec_source(), dom.spec_fragment(), *path));
    eval_answered(dom, path, source, &ans)
}

/// Destinations of `path` from `source`, with each selector test answered by scraper on
/// `dom`'s source; `None` when a selector of the path does not parse.
pub fn try_eval(dom: &Dom, path: &Path, source: DomNodeId) -> (r: Option<Vec<DomNodeId>>)
    requires
        source.0 < dom@.len(),
        offline_path(*path),
    ensures
        r is Some <==> path_selectors_parse(*path),
        r matches Some(v) ==> path_result(dom@, *path, source.0 as int, v@, path_answers(dom.spec_source(), dom.spec_fragment(), *path)),
{
    if path_parses(path) {
        Some(eval(dom, path, source))
    } else {
        None
    }
}

} // verus!
