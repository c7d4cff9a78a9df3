//! Ancestry in a forest given by parent links (`parent[i]` is `i`'s parent, `None` at a
//! root).

use vstd::prelude::*;

verus! {

/// `d` labels every node with its number of parent hops to a root.
pub open spec fn depth_labels(parent: Seq<Option<usize>>, d: Seq<nat>) -> bool {
    &&& d.len() == parent.len()
    &&& forall|i: int| 0 <= i < parent.len() ==> #[trigger] link_ok(parent, d, i)
}

pub open spec fn link_ok(parent: Seq<Option<usize>>, d: Seq<nat>, i: int) -> bool {
    match parent[i] {
        None => d[i] == 0,
        Some(p) => p < parent.len() && d[i] == d[p as int] + 1,
    }
}

/// The links point inside the slice and never close a cycle.
pub open spec fn is_forest(parent: Seq<Option<usize>>) -> bool {
    exists|d: Seq<nat>| depth_labels(parent, d)
}

/// Number of parent hops from `x` to its root.
pub open spec fn spec_depth(parent: Seq<Option<usize>>, x: int) -> nat {
    (choose|d: Seq<nat>| depth_labels(parent, d))[x]
}

/// The node `k` hops above `x` (the root once the hops run out).
pub open spec fn ancestor(parent: Seq<Option<usize>>, x: int, k: nat) -> int
    decreases k,
{
    if k == 0 {
        x
    } else {
        match parent[x] {
            Some(p) => ancestor(parent, p as int, (k - 1) as nat),
            None => x,
        }
    }
}

/// `a` is `x` or lies on the path from `x` to its root.
pub open spec fn spec_is_ancestor_or_eq(parent: Seq<Option<usize>>, a: int, x: int) -> bool {
    exists|k: nat| k <= spec_depth(parent, x) && ancestor(parent, x, k) == a
}

/// `x` and `y` hang under the same root.
pub open spec fn same_tree(parent: Seq<Option<usize>>, x: int, y: int) -> bool {
    ancestor(parent, x, spec_depth(parent, x)) == ancestor(parent, y, spec_depth(parent, y))
}

proof fn lemma_labels(parent: Seq<Option<usize>>, i: int)
    requires
        is_forest(parent),
        0 <= i < parent.len(),
    ensures
        parent[i] is None ==> spec_depth(parent, i) == 0,
        parent[i] matches Some(p) ==> p < parent.len() && spec_depth(parent, i) == spec_depth(parent, p as int) + 1,
{
    let d = choose|d: Seq<nat>| depth_labels(parent, d);
    assert(link_ok(parent, d, i));
}

/// Going `k` hops up from `x` stays inside the forest and lowers the depth by `k`.
pub proof fn lemma_ancestor(parent: Seq<Option<usize>>, x: int, k: nat)
    requires
        is_forest(parent),
        0 <= x < parent.len(),
        k <= spec_depth(parent, x),
    ensures
        0 <= ancestor(parent, x, k) < parent.len(),
        spec_depth(parent, ancestor(parent, x, k)) == spec_depth(parent, x) - k,
    decreases k,
{
    lemma_labels(parent, x);
    if k > 0 {
        let p = parent[x].unwrap();
        lemma_labels(parent, p as int);
        lemma_ancestor(parent, p as int, (k - 1) as nat);
    }
}

/// Hops compose: `i` hops and then `j` more are `i + j` hops.
pub proof fn lemma_ancestor_add(parent: Seq<Option<usize>>, x: int, i: nat, j: nat)
    requires
        is_forest(parent),
        0 <= x < parent.len(),
        i <= spec_depth(parent, x),
    ensures
        ancestor(parent, ancestor(parent, x, i), j) == ancestor(parent, x, i + j),
    decreases i,
{
    lemma_labels(parent, x);
    if i > 0 {
        let p = parent[x].unwrap();
        lemma_labels(parent, p as int);
        lemma_ancestor_add(parent, p as int, (i - 1) as nat, j);
        assert(ancestor(parent, x, i + j) == ancestor(parent, p as int, (i + j - 1) as nat));
    }
}

/// Depth of `node` in the forest: number of parent hops to a root.
pub fn depth(parent: &[Option<usize>], node: usize) -> (r: u32)
    requires
        is_forest(parent@),
        node < parent@.len(),
        spec_depth(parent@, node as int) <= u32::MAX,
    ensures
        r == spec_depth(parent@, node as int),
{
    let ghost start = node as int;
        let mut d: u32 = 0;
    let mut cur = node;
    loop
        invariant
            is_forest(parent@),
            0 <= start < parent@.len(),
            start == node,
            spec_depth(parent@, start) <= u32::MAX,
            cur < parent@.len(),
            d <= spec_depth(parent@, start),
            cur as int == ancestor(parent@, start, d as nat),
            spec_depth(parent@, cur as int) == spec_depth(parent@, start) - d,
        decreases spec_depth(parent@, cur as int),
    {
        proof {
            lemma_labels(parent@, cur as int);
        }
        match parent[cur] {
            Some(p) => {
                proof {
                    lemma_labels(parent@, p as int);
                    lemma_ancestor_add(parent@, start, d as nat, 1);
                    assert(ancestor(parent@, p as int, 0) == p as int);
                }
                d = d + 1;
                cur = p;
            },
            None => {
                assert(parent@[cur as int] is None);
                return d;
            },
        }
    }
}

/// True when `ancestor == descendant`, or `ancestor` lies on the path from `descendant`
/// to its root.
pub fn is_ancestor_or_eq(parent: &[Option<usize>], ancestor: usize, descendant: usize) -> (r: bool)
    requires
        is_forest(parent@),
        descendant < parent@.len(),
    ensures
        r == spec_is_ancestor_or_eq(parent@, ancestor as int, descendant as int),
{
    let ghost start = descendant as int;
    if ancestor == descendant {
        assert(self::ancestor(parent@, start, 0) == start);
        return true;
    }
    let mut cur = descendant;
    let ghost mut k: nat = 0;
    loop
        invariant
            is_forest(parent@),
            0 <= start < parent@.len(),
            start == descendant,
            cur < parent@.len(),
            k <= spec_depth(parent@, start),
            cur as int == self::ancestor(parent@, start, k),
            spec_depth(parent@, cur as int) == spec_depth(parent@, start) - k,
            forall|j: nat| j <= k ==> self::ancestor(parent@, start, j) != ancestor,
        decreases spec_depth(parent@, cur as int),
    {
        proof {
            lemma_labels(parent@, cur as int);
        }
        match parent[cur] {
            Some(p) => {
                proof {
                    lemma_labels(parent@, p as int);
                    lemma_ancestor_add(parent@, start, k, 1);
                    assert(self::ancestor(parent@, p as int, 0) == p as int);
                }
                if p == ancestor {
                    assert(self::ancestor(parent@, start, k + 1) == ancestor);
                    assert(spec_is_ancestor_or_eq(parent@, ancestor as int, start));
                    return true;
                }
                cur = p;
                proof {
                    k = k + 1;
                }
            },
            None => {
                assert forall|j: nat| j <= spec_depth(parent@, start) implies self::ancestor(parent@, start, j) != ancestor by {
                    assert(j <= k);
                }
                return false;
            },
        }
    }
}

/// Strict: `descendant` is properly under `ancestor` (not equal).
pub fn is_under(parent: &[Option<usize>], ancestor: usize, descendant: usize) -> (r: bool)
    requires
        is_forest(parent@),
        descendant < parent@.len(),
    ensures
        r == (ancestor != descendant && spec_is_ancestor_or_eq(parent@, ancestor as int, descendant as int)),
{
    ancestor != descendant && is_ancestor_or_eq(parent, ancestor, descendant)
}

/// The ancestors of `x` and `y` at depth `m` (given their depths `dx` and `dy`) coincide.
pub open spec fn meet_at(parent: Seq<Option<usize>>, x: int, y: int, dx: nat, dy: nat, m: nat) -> bool {
    ancestor(parent, x, (dx - m) as nat) == ancestor(parent, y, (dy - m) as nat)
}

/// Nearest common ancestor of `a` and `b` (either node if one is under the other; either
/// if equal).
pub fn nearest_common_ancestor(parent: &[Option<usize>], a: usize, b: usize) -> (r: usize)
    requires
        is_forest(parent@),
        a < parent@.len(),
        b < parent@.len(),
        spec_depth(parent@, a as int) <= u32::MAX,
        spec_depth(parent@, b as int) <= u32::MAX,
        same_tree(parent@, a as int, b as int),
    ensures
        r < parent@.len(),
        spec_is_ancestor_or_eq(parent@, r as int, a as int),
        spec_is_ancestor_or_eq(parent@, r as int, b as int),
        forall|c: int|
            spec_is_ancestor_or_eq(parent@, c, a as int) && spec_is_ancestor_or_eq(parent@, c, b as int)
                ==> spec_is_ancestor_or_eq(parent@, c, r as int),
{
    let ghost pa = parent@;
    let ghost sa = a as int;
    let ghost sb = b as int;
    let mut x = a;
    let mut y = b;
    let mut dx = depth(parent, a);
    let mut dy = depth(parent, b);
    let ghost da = dx as nat;
    let ghost db = dy as nat;
    proof {
        lemma_ancestor(pa, sa, 0);
        lemma_ancestor(pa, sb, 0);
    }
    while dx > dy
        invariant
            is_forest(pa),
            pa == parent@,
            0 <= sa < pa.len(),
            da == spec_depth(pa, sa),
            dx <= da,
            dy == db,
            dx == da || dx >= dy,
            x < pa.len(),
            x as int == ancestor(pa, sa, (da - dx) as nat),
            spec_depth(pa, x as int) == dx,
        decreases dx,
    {
        proof {
            lemma_labels(pa, x as int);
            lemma_ancestor_add(pa, sa, (da - dx) as nat, 1);
        }
        let p = parent[x].unwrap();
        proof {
            lemma_labels(pa, p as int);
            assert(ancestor(pa, p as int, 0) == p as int);
        }
        x = p;
        dx = dx - 1;
    }
    while dy > dx
        invariant
            is_forest(pa),
            pa == parent@,
            0 <= sb < pa.len(),
            db == spec_depth(pa, sb),
            dy <= db,
            dx <= dy,
            dx == da || dx == db,
            dy == db || dy >= dx,
            y < pa.len(),
            y as int == ancestor(pa, sb, (db - dy) as nat),
            spec_depth(pa, y as int) == dy,
        decreases dy,
    {
        proof {
            lemma_labels(pa, y as int);
            lemma_ancestor_add(pa, sb, (db - dy) as nat, 1);
        }
        let p = parent[y].unwrap();
        proof {
            lemma_labels(pa, p as int);
            assert(ancestor(pa, p as int, 0) == p as int);
        }
        y = p;
        dy = dy - 1;
    }
    let ghost m0 = dx as nat;
    while x != y
        invariant
            is_forest(pa),
            pa == parent@,
            0 <= sa < pa.len(),
            0 <= sb < pa.len(),
            da == spec_depth(pa, sa),
            db == spec_depth(pa, sb),
            same_tree(pa, sa, sb),
            dx == dy,
            dx <= m0,
            m0 <= da,
            m0 <= db,
            m0 == da || m0 == db,
            x < pa.len(),
            y < pa.len(),
            x as int == ancestor(pa, sa, (da - dx) as nat),
            y as int == ancestor(pa, sb, (db - dx) as nat),
            spec_depth(pa, x as int) == dx,
            spec_depth(pa, y as int) == dx,
            forall|m: nat| dx < m <= m0 ==> !#[trigger] meet_at(pa, sa, sb, da, db, m),
        decreases dx,
    {
        proof {
            lemma_labels(pa, x as int);
            lemma_labels(pa, y as int);
            if dx == 0 {
                assert(false);
            }
            lemma_ancestor_add(pa, sa, (da - dx) as nat, 1);
            lemma_ancestor_add(pa, sb, (db - dx) as nat, 1);
        }
        let p = parent[x].unwrap();
        let q = parent[y].unwrap();
        proof {
            lemma_labels(pa, p as int);
            lemma_labels(pa, q as int);
            assert(ancestor(pa, p as int, 0) == p as int);
            assert(ancestor(pa, q as int, 0) == q as int);
            assert(!meet_at(pa, sa, sb, da, db, dx as nat));
        }
        x = p;
        y = q;
        dx = dx - 1;
        dy = dy - 1;
    }
    proof {
        let m = dx as nat;
        assert(ancestor(pa, sa, (da - m) as nat) == x as int);
        assert(ancestor(pa, sb, (db - m) as nat) == x as int);
        assert(spec_is_ancestor_or_eq(pa, x as int, sa));
        assert(spec_is_ancestor_or_eq(pa, x as int, sb));
        assert forall|c: int|
            spec_is_ancestor_or_eq(pa, c, sa) && spec_is_ancestor_or_eq(pa, c, sb)
                implies spec_is_ancestor_or_eq(pa, c, x as int) by {
            let ka = choose|k: nat| k <= spec_depth(pa, sa) && ancestor(pa, sa, k) == c;
            let kb = choose|k: nat| k <= spec_depth(pa, sb) && ancestor(pa, sb, k) == c;
            lemma_ancestor(pa, sa, ka);
            lemma_ancestor(pa, sb, kb);
            let mc = (da - ka) as nat;
            assert(mc == db - kb);
            if mc > m {
                assert(meet_at(pa, sa, sb, da, db, mc));
                assert(false);
            }
            lemma_ancestor_add(pa, sa, (da - m) as nat, (m - mc) as nat);
            assert(ancestor(pa, x as int, (m - mc) as nat) == c);
        }
    }
    x
}

} // verus!
