//! The language of a generalized regular expression, stated directly: which words each
//! expression matches, by splitting words into parts. The derivative model of
//! `regex_spec` is proved to decide exactly this language.

use vstd::prelude::*;
use crate::regex_spec::{
    accepts, bit_set, derive_each, sequence_alternatives, spec_derivative, all_nullable, any_epsilon, any_nullable, atom_matches, choice_members, collapse_universal,
    dedup_res, ins_pos, insert_ordered, intersection_members, is_universal, re_nullable,
    sequence_members, sort_res, spec_choice, spec_intersection, spec_repeat, spec_sequence, Atom,
    Re,
};

verus! {

/// Whether `r` matches the word `w` (a sequence of bitset symbols).
pub open spec fn lang(r: Re, w: Seq<Seq<u64>>) -> bool
    decreases r, w.len(), 0int,
{
    match r {
        Re::Never => false,
        Re::Epsilon => w.len() == 0,
        Re::Universal => true,
        Re::Atom(a) => w.len() == 1 && atom_matches(a, w[0]),
        Re::Choice(es) => any_lang(es, w),
        Re::Intersection(es) => all_lang(es, w),
        Re::Sequence(es) => seq_lang(es, w),
        Re::Repeat(e) => star_lang(*e, w),
    }
}

/// Some member matches `w`.
pub open spec fn any_lang(es: Seq<Re>, w: Seq<Seq<u64>>) -> bool
    decreases es, w.len(), 0int,
{
    if es.len() == 0 {
        false
    } else {
        lang(es[0], w) || any_lang(es.drop_first(), w)
    }
}

/// Every member matches `w`.
pub open spec fn all_lang(es: Seq<Re>, w: Seq<Seq<u64>>) -> bool
    decreases es, w.len(), 0int,
{
    if es.len() == 0 {
        true
    } else {
        lang(es[0], w) && all_lang(es.drop_first(), w)
    }
}

/// `w` splits into consecutive parts matched by the members, in order.
pub open spec fn seq_lang(es: Seq<Re>, w: Seq<Seq<u64>>) -> bool
    decreases es, w.len(), w.len() + 2,
{
    if es.len() == 0 {
        w.len() == 0
    } else {
        seq_split(es, w, 0)
    }
}

/// Some split point `j >= k` puts a match of the first member before it and a match of
/// the other members after it.
pub open spec fn seq_split(es: Seq<Re>, w: Seq<Seq<u64>>, k: int) -> bool
    decreases es, w.len(), w.len() + 1 - k,
{
    if es.len() == 0 || k < 0 || k > w.len() {
        false
    } else {
        (lang(es[0], w.take(k)) && seq_lang(es.drop_first(), w.skip(k))) || seq_split(es, w, k + 1)
    }
}

/// `w` splits into zero or more non-empty parts, each matched by `e`.
pub open spec fn star_lang(e: Re, w: Seq<Seq<u64>>) -> bool
    decreases e, w.len(), w.len() + 2,
{
    w.len() == 0 || star_split(e, w, 1)
}

/// Some non-empty first part of length `j >= k` is matched by `e`, and the rest splits
/// likewise.
pub open spec fn star_split(e: Re, w: Seq<Seq<u64>>, k: int) -> bool
    decreases e, w.len(), w.len() + 1 - k,
{
    if k < 1 || k > w.len() {
        false
    } else {
        (lang(e, w.take(k)) && star_lang(e, w.skip(k))) || star_split(e, w, k + 1)
    }
}

/// The split of `w` at `j`: the first member matches the part before, the others the
/// part after.
pub open spec fn seq_split_at(es: Seq<Re>, w: Seq<Seq<u64>>, j: int) -> bool {
    &&& 0 <= j <= w.len()
    &&& lang(es[0], w.take(j))
    &&& seq_lang(es.drop_first(), w.skip(j))
}

/// The split of `w` at `j` for a repetition: `e` matches the non-empty part before, the
/// repetition the part after.
pub open spec fn star_split_at(e: Re, w: Seq<Seq<u64>>, j: int) -> bool {
    &&& 1 <= j <= w.len()
    &&& lang(e, w.take(j))
    &&& star_lang(e, w.skip(j))
}

proof fn lemma_seq_split(es: Seq<Re>, w: Seq<Seq<u64>>, k: int)
    requires
        es.len() > 0,
        0 <= k,
    ensures
        seq_split(es, w, k) == exists|j: int| k <= j && #[trigger] seq_split_at(es, w, j),
    decreases w.len() + 1 - k,
{
    if k <= w.len() {
        lemma_seq_split(es, w, k + 1);
        if seq_split(es, w, k) {
            if seq_split_at(es, w, k) {
            } else {
                let j = choose|j: int| k + 1 <= j && #[trigger] seq_split_at(es, w, j);
                assert(k <= j);
            }
        }
        if exists|j: int| k <= j && #[trigger] seq_split_at(es, w, j) {
            let j = choose|j: int| k <= j && #[trigger] seq_split_at(es, w, j);
            if j > k {
                assert(k + 1 <= j);
            }
        }
    } else {
        if exists|j: int| k <= j && #[trigger] seq_split_at(es, w, j) {
            let j = choose|j: int| k <= j && #[trigger] seq_split_at(es, w, j);
        }
    }
}

/// A sequence with members matches `w` exactly when some split of `w` fits.
pub proof fn lemma_seq_lang_split(es: Seq<Re>, w: Seq<Seq<u64>>)
    requires
        es.len() > 0,
    ensures
        seq_lang(es, w) == exists|j: int| #[trigger] seq_split_at(es, w, j),
{
    lemma_seq_split(es, w, 0);
    if exists|j: int| #[trigger] seq_split_at(es, w, j) {
        let j = choose|j: int| #[trigger] seq_split_at(es, w, j);
        assert(0 <= j);
    }
}

proof fn lemma_star_split(e: Re, w: Seq<Seq<u64>>, k: int)
    requires
        1 <= k,
    ensures
        star_split(e, w, k) == exists|j: int| k <= j && #[trigger] star_split_at(e, w, j),
    decreases w.len() + 1 - k,
{
    if k <= w.len() {
        lemma_star_split(e, w, k + 1);
        if star_split(e, w, k) {
            if star_split_at(e, w, k) {
            } else {
                let j = choose|j: int| k + 1 <= j && #[trigger] star_split_at(e, w, j);
                assert(k <= j);
            }
        }
        if exists|j: int| k <= j && #[trigger] star_split_at(e, w, j) {
            let j = choose|j: int| k <= j && #[trigger] star_split_at(e, w, j);
            if j > k {
                assert(k + 1 <= j);
            }
        }
    } else {
        if exists|j: int| k <= j && #[trigger] star_split_at(e, w, j) {
            let j = choose|j: int| k <= j && #[trigger] star_split_at(e, w, j);
        }
    }
}

/// A repetition matches `w` exactly when `w` is empty or some split of it fits.
pub proof fn lemma_star_lang_split(e: Re, w: Seq<Seq<u64>>)
    ensures
        star_lang(e, w) == (w.len() == 0 || exists|j: int| #[trigger] star_split_at(e, w, j)),
{
    lemma_star_split(e, w, 1);
    if exists|j: int| #[trigger] star_split_at(e, w, j) {
        let j = choose|j: int| #[trigger] star_split_at(e, w, j);
        assert(1 <= j);
    }
}

/// A choice matches when one of its members does.
pub proof fn lemma_any_lang(es: Seq<Re>, w: Seq<Seq<u64>>)
    ensures
        any_lang(es, w) == exists|i: int| 0 <= i < es.len() && #[trigger] lang(es[i], w),
    decreases es.len(),
{
    if es.len() > 0 {
        lemma_any_lang(es.drop_first(), w);
        if any_lang(es, w) && !lang(es[0], w) {
            let i = choose|i: int| 0 <= i < es.drop_first().len() && #[trigger] lang(es.drop_first()[i], w);
            assert(lang(es[i + 1], w));
        }
        if exists|i: int| 0 <= i < es.len() && #[trigger] lang(es[i], w) {
            let i = choose|i: int| 0 <= i < es.len() && #[trigger] lang(es[i], w);
            if i > 0 {
                assert(es.drop_first()[i - 1] == es[i]);
            }
        }
    }
}

/// An intersection matches when all of its members do.
pub proof fn lemma_all_lang(es: Seq<Re>, w: Seq<Seq<u64>>)
    ensures
        all_lang(es, w) == forall|i: int| 0 <= i < es.len() ==> #[trigger] lang(es[i], w),
    decreases es.len(),
{
    if es.len() > 0 {
        lemma_all_lang(es.drop_first(), w);
        if all_lang(es, w) {
            assert forall|i: int| 0 <= i < es.len() implies #[trigger] lang(es[i], w) by {
                if i > 0 {
                    assert(es.drop_first()[i - 1] == es[i]);
                }
            }
        }
        if forall|i: int| 0 <= i < es.len() ==> #[trigger] lang(es[i], w) {
            assert(lang(es[0], w));
            assert forall|i: int| 0 <= i < es.drop_first().len() implies #[trigger] lang(es.drop_first()[i], w) by {
                assert(lang(es[i + 1], w));
            }
        }
    }
}

/// Nullability is matching the empty word.
pub proof fn lemma_nullable(r: Re)
    ensures
        re_nullable(r) == lang(r, Seq::empty()),
    decreases r,
{
    match r {
        Re::Choice(es) => lemma_any_nullable(es),
        Re::Intersection(es) => lemma_all_nullable(es),
        Re::Sequence(es) => lemma_seq_nullable(es),
        _ => {},
    }
}

proof fn lemma_any_nullable(es: Seq<Re>)
    ensures
        any_nullable(es) == any_lang(es, Seq::empty()),
    decreases es,
{
    if es.len() > 0 {
        lemma_nullable(es[0]);
        lemma_any_nullable(es.drop_first());
    }
}

proof fn lemma_all_nullable(es: Seq<Re>)
    ensures
        all_nullable(es) == all_lang(es, Seq::empty()),
    decreases es,
{
    if es.len() > 0 {
        lemma_nullable(es[0]);
        lemma_all_nullable(es.drop_first());
    }
}

proof fn lemma_seq_nullable(es: Seq<Re>)
    ensures
        all_nullable(es) == seq_lang(es, Seq::empty()),
    decreases es,
{
    if es.len() > 0 {
        let w = Seq::<Seq<u64>>::empty();
        lemma_nullable(es[0]);
        lemma_seq_nullable(es.drop_first());
        lemma_seq_lang_split(es, w);
        assert(w.take(0) =~= w);
        assert(w.skip(0) =~= w);
        if seq_lang(es, w) {
            let j = choose|j: int| #[trigger] seq_split_at(es, w, j);
            assert(j == 0);
        }
        if all_nullable(es) {
            assert(seq_split_at(es, w, 0));
        }
    }
}

/// The split of `w` at `k` between the members `xs` and the members `ys`.
pub open spec fn concat_at(xs: Seq<Re>, ys: Seq<Re>, w: Seq<Seq<u64>>, k: int) -> bool {
    &&& 0 <= k <= w.len()
    &&& seq_lang(xs, w.take(k))
    &&& seq_lang(ys, w.skip(k))
}

/// Concatenating member lists concatenates what they match.
pub proof fn lemma_seq_concat(xs: Seq<Re>, ys: Seq<Re>, w: Seq<Seq<u64>>)
    ensures
        seq_lang(xs + ys, w) == exists|k: int| #[trigger] concat_at(xs, ys, w, k),
    decreases xs.len(),
{
    if xs.len() == 0 {
        assert(xs + ys =~= ys);
        assert(w.skip(0) =~= w);
        if seq_lang(ys, w) {
            assert(w.take(0).len() == 0);
            assert(concat_at(xs, ys, w, 0));
        }
        if exists|k: int| #[trigger] concat_at(xs, ys, w, k) {
            let k = choose|k: int| #[trigger] concat_at(xs, ys, w, k);
            assert(w.take(k).len() == 0);
            assert(k == 0);
        }
    } else {
        let zs = xs + ys;
        let x0 = xs[0];
        let rest = xs.drop_first();
        assert(zs[0] == x0);
        assert(zs.drop_first() =~= rest + ys);
        lemma_seq_lang_split(zs, w);
        lemma_seq_lang_split(xs, w);
        if seq_lang(zs, w) {
            let j = choose|j: int| #[trigger] seq_split_at(zs, w, j);
            let v = w.skip(j);
            lemma_seq_concat(rest, ys, v);
            let m = choose|m: int| #[trigger] concat_at(rest, ys, v, m);
            let k = j + m;
            let u = w.take(k);
            assert(u.take(j) =~= w.take(j));
            assert(u.skip(j) =~= v.take(m));
            assert(w.skip(k) =~= v.skip(m));
            lemma_seq_lang_split(xs, u);
            assert(seq_split_at(xs, u, j));
            assert(concat_at(xs, ys, w, k));
        }
        if exists|k: int| #[trigger] concat_at(xs, ys, w, k) {
            let k = choose|k: int| #[trigger] concat_at(xs, ys, w, k);
            let u = w.take(k);
            lemma_seq_lang_split(xs, u);
            let j = choose|j: int| #[trigger] seq_split_at(xs, u, j);
            let v = w.skip(j);
            let m = k - j;
            assert(u.take(j) =~= w.take(j));
            assert(u.skip(j) =~= v.take(m));
            assert(w.skip(k) =~= v.skip(m));
            lemma_seq_concat(rest, ys, v);
            assert(concat_at(rest, ys, v, m));
            assert(seq_split_at(zs, w, j));
        }
    }
}

/// A one-member sequence matches what its member matches.
pub proof fn lemma_seq_single(e: Re, w: Seq<Seq<u64>>)
    ensures
        seq_lang(seq![e], w) == lang(e, w),
{
    let es = seq![e];
    lemma_seq_lang_split(es, w);
    assert(es.drop_first() =~= Seq::<Re>::empty());
    assert(w.take(w.len() as int) =~= w);
    if lang(e, w) {
        assert(w.skip(w.len() as int).len() == 0);
        assert(seq_split_at(es, w, w.len() as int));
    }
    if seq_lang(es, w) {
        let j = choose|j: int| #[trigger] seq_split_at(es, w, j);
        assert(w.skip(j).len() == 0);
        assert(j == w.len());
    }
}

/// The split of `w` at `k` between the members `init` and one more member `last`.
pub open spec fn snoc_at(init: Seq<Re>, last: Re, w: Seq<Seq<u64>>, k: int) -> bool {
    &&& 0 <= k <= w.len()
    &&& seq_lang(init, w.take(k))
    &&& lang(last, w.skip(k))
}

/// One more member at the end matches a last part of the word.
pub proof fn lemma_seq_snoc(init: Seq<Re>, last: Re, w: Seq<Seq<u64>>)
    ensures
        seq_lang(init.push(last), w) == exists|k: int| #[trigger] snoc_at(init, last, w, k),
{
    assert(init.push(last) =~= init + seq![last]);
    lemma_seq_concat(init, seq![last], w);
    if seq_lang(init.push(last), w) {
        let k = choose|k: int| #[trigger] concat_at(init, seq![last], w, k);
        lemma_seq_single(last, w.skip(k));
        assert(snoc_at(init, last, w, k));
    }
    if exists|k: int| #[trigger] snoc_at(init, last, w, k) {
        let k = choose|k: int| #[trigger] snoc_at(init, last, w, k);
        lemma_seq_single(last, w.skip(k));
        assert(concat_at(init, seq![last], w, k));
    }
}

/// Flattening the members of a sequence keeps what it matches; a `Never` member makes
/// it match nothing.
proof fn lemma_sequence_members(es: Seq<Re>, w: Seq<Seq<u64>>)
    ensures
        sequence_members(es) is None ==> !seq_lang(es, w),
        sequence_members(es) matches Some(acc) ==> seq_lang(acc, w) == seq_lang(es, w),
    decreases es.len(),
{
    if es.len() == 0 {
        return;
    }
    let init = es.drop_last();
    let last = es.last();
    assert(init.push(last) =~= es);
    lemma_seq_snoc(init, last, w);
    match sequence_members(init) {
        None => {
            if seq_lang(es, w) {
                let k = choose|k: int| #[trigger] snoc_at(init, last, w, k);
                lemma_sequence_members(init, w.take(k));
            }
        },
        Some(acc) => {
            // Moves a split between `init` and `acc`, which match the same prefixes.
            match last {
                Re::Never => {
                    if seq_lang(es, w) {
                        let k = choose|k: int| #[trigger] snoc_at(init, last, w, k);
                    }
                },
                Re::Epsilon => {
                    lemma_sequence_members(init, w);
                    if seq_lang(es, w) {
                        let k = choose|k: int| #[trigger] snoc_at(init, last, w, k);
                        assert(k == w.len());
                        assert(w.take(k) =~= w);
                    }
                    if seq_lang(init, w) {
                        assert(w.take(w.len() as int) =~= w);
                        assert(snoc_at(init, last, w, w.len() as int));
                    }
                },
                Re::Sequence(inner) => {
                    lemma_seq_concat(acc, inner, w);
                    if seq_lang(es, w) {
                        let k = choose|k: int| #[trigger] snoc_at(init, last, w, k);
                        lemma_sequence_members(init, w.take(k));
                        assert(concat_at(acc, inner, w, k));
                    }
                    if seq_lang(acc + inner, w) {
                        let k = choose|k: int| #[trigger] concat_at(acc, inner, w, k);
                        lemma_sequence_members(init, w.take(k));
                        assert(snoc_at(init, last, w, k));
                    }
                },
                _ => {
                    lemma_seq_snoc(acc, last, w);
                    if seq_lang(es, w) {
                        let k = choose|k: int| #[trigger] snoc_at(init, last, w, k);
                        lemma_sequence_members(init, w.take(k));
                        assert(snoc_at(acc, last, w, k));
                    }
                    if seq_lang(acc.push(last), w) {
                        let k = choose|k: int| #[trigger] snoc_at(acc, last, w, k);
                        lemma_sequence_members(init, w.take(k));
                        assert(snoc_at(init, last, w, k));
                    }
                },
            }
        },
    }
}

/// After a trailing `Universal`, one more `Universal` matches nothing new.
proof fn lemma_seq_universal_tail(t: Seq<Re>, w: Seq<Seq<u64>>)
    requires
        t.len() > 0,
        t.last() is Universal,
    ensures
        seq_lang(t.push(Re::Universal), w) == seq_lang(t, w),
{
    lemma_seq_snoc(t, Re::Universal, w);
    if seq_lang(t, w) {
        assert(w.take(w.len() as int) =~= w);
        assert(snoc_at(t, Re::Universal, w, w.len() as int));
    }
    if seq_lang(t.push(Re::Universal), w) {
        let k = choose|k: int| #[trigger] snoc_at(t, Re::Universal, w, k);
        let u = w.take(k);
        let init = t.drop_last();
        assert(init.push(Re::Universal) =~= t);
        lemma_seq_snoc(init, Re::Universal, u);
        let k2 = choose|k2: int| #[trigger] snoc_at(init, Re::Universal, u, k2);
        assert(u.take(k2) =~= w.take(k2));
        lemma_seq_snoc(init, Re::Universal, w);
        assert(snoc_at(init, Re::Universal, w, k2));
    }
}

/// Dropping repeated `Universal` members keeps what a sequence matches, and keeps its
/// last member.
proof fn lemma_collapse_universal(s: Seq<Re>, w: Seq<Seq<u64>>)
    ensures
        seq_lang(collapse_universal(s), w) == seq_lang(s, w),
        s.len() > 0 ==> collapse_universal(s).len() > 0 && collapse_universal(s).last() == s.last(),
    decreases s.len(),
{
    if s.len() == 0 {
        return;
    }
    let init = s.drop_last();
    let last = s.last();
    let c = collapse_universal(init);
    assert(init.push(last) =~= s);
    if s.len() >= 2 && is_universal(last) && is_universal(s[s.len() - 2]) {
        lemma_collapse_universal(init, w);
        assert(init.last() == s[s.len() - 2]);
        lemma_seq_universal_tail(init, w);
    } else {
        lemma_collapse_universal(init, Seq::empty());
        lemma_seq_snoc(c, last, w);
        lemma_seq_snoc(init, last, w);
        if seq_lang(s, w) {
            let k = choose|k: int| #[trigger] snoc_at(init, last, w, k);
            lemma_collapse_universal(init, w.take(k));
            assert(snoc_at(c, last, w, k));
        }
        if seq_lang(c.push(last), w) {
            let k = choose|k: int| #[trigger] snoc_at(c, last, w, k);
            lemma_collapse_universal(init, w.take(k));
            assert(snoc_at(init, last, w, k));
        }
    }
}

/// The canonical concatenation matches what the plain one does.
pub proof fn lemma_spec_sequence(es: Seq<Re>, w: Seq<Seq<u64>>)
    ensures
        lang(spec_sequence(es), w) == seq_lang(es, w),
{
    lemma_sequence_members(es, w);
    match sequence_members(es) {
        None => {},
        Some(flat) => {
            let c = collapse_universal(flat);
            lemma_collapse_universal(flat, w);
            if c.len() == 1 {
                assert(c =~= seq![c[0]]);
                lemma_seq_single(c[0], w);
            }
        },
    }
}

/// A choice matches when some expression it contains does.
proof fn lemma_any_lang_contains(es: Seq<Re>, w: Seq<Seq<u64>>)
    ensures
        any_lang(es, w) == exists|x: Re| es.contains(x) && #[trigger] lang(x, w),
{
    lemma_any_lang(es, w);
    if any_lang(es, w) {
        let i = choose|i: int| 0 <= i < es.len() && #[trigger] lang(es[i], w);
        assert(es.contains(es[i]));
    }
    if exists|x: Re| es.contains(x) && #[trigger] lang(x, w) {
        let x = choose|x: Re| es.contains(x) && #[trigger] lang(x, w);
        let i = choose|i: int| 0 <= i < es.len() && es[i] == x;
        assert(lang(es[i], w));
    }
}

/// An intersection matches when every expression it contains does.
proof fn lemma_all_lang_contains(es: Seq<Re>, w: Seq<Seq<u64>>)
    ensures
        all_lang(es, w) == forall|x: Re| es.contains(x) ==> #[trigger] lang(x, w),
{
    lemma_all_lang(es, w);
    if all_lang(es, w) {
        assert forall|x: Re| es.contains(x) implies #[trigger] lang(x, w) by {
            let i = choose|i: int| 0 <= i < es.len() && es[i] == x;
            assert(lang(es[i], w));
        }
    }
    if forall|x: Re| es.contains(x) ==> #[trigger] lang(x, w) {
        assert forall|i: int| 0 <= i < es.len() implies #[trigger] lang(es[i], w) by {
            assert(es.contains(es[i]));
        }
    }
}

proof fn lemma_ins_pos_range(t: Seq<Re>, x: Re)
    ensures
        0 <= ins_pos(t, x) <= t.len(),
    decreases t.len(),
{
    if t.len() > 0 {
        lemma_ins_pos_range(t.drop_first(), x);
    }
}

/// Sorting keeps the members.
proof fn lemma_sort_contains(s: Seq<Re>)
    ensures
        forall|y: Re| #[trigger] sort_res(s).contains(y) == s.contains(y),
    decreases s.len(),
{
    if s.len() > 0 {
        let init = s.drop_last();
        let t = sort_res(init);
        let x = s.last();
        lemma_sort_contains(init);
        lemma_ins_pos_range(t, x);
        let p = ins_pos(t, x);
        let r = insert_ordered(t, x);
        assert(r == t.take(p) + seq![x] + t.skip(p));
        assert forall|y: Re| #[trigger] r.contains(y) == s.contains(y) by {
            assert(t.contains(y) == init.contains(y));
            if r.contains(y) {
                let i = choose|i: int| 0 <= i < r.len() && r[i] == y;
                if i < p {
                    assert(t.contains(y)) by {
                        assert(t[i] == y);
                    }
                    let j = choose|j: int| 0 <= j < init.len() && init[j] == y;
                    assert(s[j] == y);
                } else if i == p {
                    assert(s[s.len() - 1] == y);
                } else {
                    assert(t.contains(y)) by {
                        assert(t[i - 1] == y);
                    }
                    let j = choose|j: int| 0 <= j < init.len() && init[j] == y;
                    assert(s[j] == y);
                }
            }
            if s.contains(y) {
                let j = choose|j: int| 0 <= j < s.len() && s[j] == y;
                if j == s.len() - 1 {
                    assert(r[p] == y);
                } else {
                    assert(init.contains(y)) by {
                        assert(init[j] == y);
                    }
                    let i = choose|i: int| 0 <= i < t.len() && t[i] == y;
                    if i < p {
                        assert(r[i] == y);
                    } else {
                        assert(r[i + 1] == y);
                    }
                }
            }
        }
    }
}

/// Removing consecutive duplicates keeps the members.
proof fn lemma_dedup_contains(s: Seq<Re>)
    ensures
        forall|y: Re| #[trigger] dedup_res(s).contains(y) == s.contains(y),
    decreases s.len(),
{
    if s.len() > 0 {
        let init = s.drop_last();
        let d = dedup_res(init);
        let x = s.last();
        lemma_dedup_contains(init);
        assert forall|y: Re| #[trigger] dedup_res(s).contains(y) == s.contains(y) by {
            assert(d.contains(y) == init.contains(y));
            if d.len() > 0 && d.last() == x {
                if s.contains(y) {
                    let j = choose|j: int| 0 <= j < s.len() && s[j] == y;
                    if j < s.len() - 1 {
                        assert(init[j] == y);
                        assert(init.contains(y));
                    } else {
                        assert(d[d.len() - 1] == y);
                    }
                }
                if d.contains(y) {
                    let j = choose|j: int| 0 <= j < init.len() && init[j] == y;
                    assert(s[j] == y);
                }
            } else {
                let r = d.push(x);
                if r.contains(y) {
                    let i = choose|i: int| 0 <= i < r.len() && r[i] == y;
                    if i < d.len() {
                        assert(d[i] == y);
                        assert(d.contains(y));
                        let j = choose|j: int| 0 <= j < init.len() && init[j] == y;
                        assert(s[j] == y);
                    } else {
                        assert(s[s.len() - 1] == y);
                    }
                }
                if s.contains(y) {
                    let j = choose|j: int| 0 <= j < s.len() && s[j] == y;
                    if j < s.len() - 1 {
                        assert(init[j] == y);
                        assert(init.contains(y));
                        let i = choose|i: int| 0 <= i < d.len() && d[i] == y;
                        assert(r[i] == y);
                    } else {
                        assert(r[d.len() as int] == y);
                    }
                }
            }
        }
    }
}

/// Flattening the members of a choice keeps what it matches; a `Universal` member makes
/// it match everything.
proof fn lemma_choice_members(es: Seq<Re>, w: Seq<Seq<u64>>)
    ensures
        choice_members(es) is None ==> any_lang(es, w),
        choice_members(es) matches Some(acc) ==> any_lang(acc, w) == any_lang(es, w),
    decreases es.len(),
{
    if es.len() == 0 {
        return;
    }
    let init = es.drop_last();
    let last = es.last();
    lemma_choice_members(init, w);
    lemma_any_lang_contains(es, w);
    lemma_any_lang_contains(init, w);
    assert(es.contains(last));
    assert forall|x: Re| #[trigger] es.contains(x) == (init.contains(x) || x == last) by {
        if es.contains(x) && x != last {
            let j = choose|j: int| 0 <= j < es.len() && es[j] == x;
            assert(init[j] == x);
        }
        if init.contains(x) {
            let j = choose|j: int| 0 <= j < init.len() && init[j] == x;
            assert(es[j] == x);
        }
    }
    match choice_members(init) {
        None => {
            let x = choose|x: Re| init.contains(x) && #[trigger] lang(x, w);
            assert(es.contains(x));
        },
        Some(acc) => {
            lemma_any_lang_contains(acc, w);
            match last {
                Re::Never => {},
                Re::Universal => {
                    assert(lang(last, w));
                },
                Re::Choice(inner) => {
                    let r = acc + inner;
                    lemma_any_lang_contains(r, w);
                    lemma_any_lang_contains(inner, w);
                    assert forall|x: Re| #[trigger] r.contains(x) == (acc.contains(x) || inner.contains(x)) by {
                        if r.contains(x) {
                            let j = choose|j: int| 0 <= j < r.len() && r[j] == x;
                            if j < acc.len() {
                                assert(acc[j] == x);
                            } else {
                                assert(inner[j - acc.len()] == x);
                            }
                        }
                        if acc.contains(x) {
                            let j = choose|j: int| 0 <= j < acc.len() && acc[j] == x;
                            assert(r[j] == x);
                        }
                        if inner.contains(x) {
                            let j = choose|j: int| 0 <= j < inner.len() && inner[j] == x;
                            assert(r[acc.len() + j] == x);
                        }
                    }
                    if any_lang(r, w) {
                        let x = choose|x: Re| r.contains(x) && #[trigger] lang(x, w);
                        if inner.contains(x) {
                            assert(lang(last, w));
                        }
                    }
                    if any_lang(es, w) {
                        let x = choose|x: Re| es.contains(x) && #[trigger] lang(x, w);
                        if x == last {
                            let y = choose|y: Re| inner.contains(y) && #[trigger] lang(y, w);
                            assert(r.contains(y));
                        }
                    }
                },
                _ => {
                    let r = acc.push(last);
                    lemma_any_lang_contains(r, w);
                    assert forall|x: Re| #[trigger] r.contains(x) == (acc.contains(x) || x == last) by {
                        if r.contains(x) && x != last {
                            let j = choose|j: int| 0 <= j < r.len() && r[j] == x;
                            assert(acc[j] == x);
                        }
                        if acc.contains(x) {
                            let j = choose|j: int| 0 <= j < acc.len() && acc[j] == x;
                            assert(r[j] == x);
                        }
                        if x == last {
                            assert(r[acc.len() as int] == x);
                        }
                    }
                },
            }
        },
    }
}

/// The canonical union matches what one of its members matches.
pub proof fn lemma_spec_choice(es: Seq<Re>, w: Seq<Seq<u64>>)
    ensures
        lang(spec_choice(es), w) == any_lang(es, w),
{
    lemma_choice_members(es, w);
    match choice_members(es) {
        None => {},
        Some(flat) => {
            let d = dedup_res(sort_res(flat));
            lemma_sort_contains(flat);
            lemma_dedup_contains(sort_res(flat));
            lemma_any_lang_contains(d, w);
            lemma_any_lang_contains(flat, w);
            assert forall|x: Re| #[trigger] d.contains(x) == flat.contains(x) by {
                assert(sort_res(flat).contains(x) == flat.contains(x));
            }
            if d.len() == 1 {
                assert(d.contains(d[0]));
                if any_lang(d, w) {
                    let x = choose|x: Re| d.contains(x) && #[trigger] lang(x, w);
                    let j = choose|j: int| 0 <= j < d.len() && d[j] == x;
                }
            }
        },
    }
}

/// Flattening the members of an intersection keeps what it matches; a `Never` member
/// makes it match nothing.
proof fn lemma_intersection_members(es: Seq<Re>, w: Seq<Seq<u64>>)
    ensures
        intersection_members(es) is None ==> !all_lang(es, w),
        intersection_members(es) matches Some(acc) ==> all_lang(acc, w) == all_lang(es, w),
    decreases es.len(),
{
    if es.len() == 0 {
        return;
    }
    let init = es.drop_last();
    let last = es.last();
    lemma_intersection_members(init, w);
    lemma_all_lang_contains(es, w);
    lemma_all_lang_contains(init, w);
    assert(es.contains(last));
    assert forall|x: Re| #[trigger] es.contains(x) == (init.contains(x) || x == last) by {
        if es.contains(x) && x != last {
            let j = choose|j: int| 0 <= j < es.len() && es[j] == x;
            assert(init[j] == x);
        }
        if init.contains(x) {
            let j = choose|j: int| 0 <= j < init.len() && init[j] == x;
            assert(es[j] == x);
        }
    }
    match intersection_members(init) {
        None => {
            if all_lang(es, w) {
                assert forall|x: Re| init.contains(x) implies #[trigger] lang(x, w) by {
                    assert(es.contains(x));
                }
            }
        },
        Some(acc) => {
            lemma_all_lang_contains(acc, w);
            match last {
                Re::Universal => {
                    assert(lang(last, w));
                },
                Re::Never => {
                    assert(!lang(last, w));
                },
                Re::Intersection(inner) => {
                    let r = acc + inner;
                    lemma_all_lang_contains(r, w);
                    lemma_all_lang_contains(inner, w);
                    assert forall|x: Re| #[trigger] r.contains(x) == (acc.contains(x) || inner.contains(x)) by {
                        if r.contains(x) {
                            let j = choose|j: int| 0 <= j < r.len() && r[j] == x;
                            if j < acc.len() {
                                assert(acc[j] == x);
                            } else {
                                assert(inner[j - acc.len()] == x);
                            }
                        }
                        if acc.contains(x) {
                            let j = choose|j: int| 0 <= j < acc.len() && acc[j] == x;
                            assert(r[j] == x);
                        }
                        if inner.contains(x) {
                            let j = choose|j: int| 0 <= j < inner.len() && inner[j] == x;
                            assert(r[acc.len() + j] == x);
                        }
                    }
                    if all_lang(es, w) {
                        assert forall|y: Re| init.contains(y) implies #[trigger] lang(y, w) by {
                            assert(es.contains(y));
                        }
                        assert(all_lang(acc, w));
                        assert(lang(last, w));
                        assert forall|y: Re| r.contains(y) implies #[trigger] lang(y, w) by {
                            if !acc.contains(y) {
                                assert(inner.contains(y));
                            }
                        }
                    }
                    if all_lang(r, w) {
                        assert forall|y: Re| acc.contains(y) implies #[trigger] lang(y, w) by {
                            assert(r.contains(y));
                        }
                        assert(all_lang(init, w));
                        assert forall|x: Re| es.contains(x) implies #[trigger] lang(x, w) by {
                            if x == last {
                                assert forall|y: Re| inner.contains(y) implies #[trigger] lang(y, w) by {
                                    assert(r.contains(y));
                                }
                            } else {
                                assert(init.contains(x));
                            }
                        }
                    }
                },
                _ => {
                    let r = acc.push(last);
                    lemma_all_lang_contains(r, w);
                    assert forall|x: Re| #[trigger] r.contains(x) == (acc.contains(x) || x == last) by {
                        if r.contains(x) && x != last {
                            let j = choose|j: int| 0 <= j < r.len() && r[j] == x;
                            assert(acc[j] == x);
                        }
                        if acc.contains(x) {
                            let j = choose|j: int| 0 <= j < acc.len() && acc[j] == x;
                            assert(r[j] == x);
                        }
                        if x == last {
                            assert(r[acc.len() as int] == x);
                        }
                    }
                },
            }
        },
    }
}

proof fn lemma_any_epsilon(es: Seq<Re>)
    ensures
        any_epsilon(es) ==> exists|i: int| 0 <= i < es.len() && (#[trigger] es[i]) is Epsilon,
    decreases es.len(),
{
    if es.len() > 0 && !(es[0] is Epsilon) {
        lemma_any_epsilon(es.drop_first());
        if any_epsilon(es) {
            let i = choose|i: int| 0 <= i < es.drop_first().len() && (#[trigger] es.drop_first()[i]) is Epsilon;
            assert(es[i + 1] is Epsilon);
        }
    }
}

/// The canonical intersection matches what all of its members match.
pub proof fn lemma_spec_intersection(es: Seq<Re>, w: Seq<Seq<u64>>)
    ensures
        lang(spec_intersection(es), w) == all_lang(es, w),
{
    lemma_intersection_members(es, w);
    match intersection_members(es) {
        None => {},
        Some(flat) => {
            if any_epsilon(flat) {
                lemma_any_epsilon(flat);
                let i = choose|i: int| 0 <= i < flat.len() && (#[trigger] flat[i]) is Epsilon;
                lemma_all_lang(flat, w);
                if w.len() == 0 {
                    assert(w =~= Seq::<Seq<u64>>::empty());
                    lemma_all_nullable(flat);
                } else {
                    assert(!lang(flat[i], w));
                }
            } else {
                let d = dedup_res(sort_res(flat));
                lemma_sort_contains(flat);
                lemma_dedup_contains(sort_res(flat));
                lemma_all_lang_contains(d, w);
                lemma_all_lang_contains(flat, w);
                assert forall|x: Re| #[trigger] d.contains(x) == flat.contains(x) by {
                    assert(sort_res(flat).contains(x) == flat.contains(x));
                }
                if d.len() == 1 {
                    assert(d.contains(d[0]));
                    if lang(d[0], w) {
                        assert forall|x: Re| d.contains(x) implies #[trigger] lang(x, w) by {
                            let j = choose|j: int| 0 <= j < d.len() && d[j] == x;
                        }
                    }
                }
            }
        },
    }
}

/// Repetitions concatenate: two words that split into matches of `e` together do too.
proof fn lemma_star_concat(e: Re, u: Seq<Seq<u64>>, v: Seq<Seq<u64>>)
    requires
        star_lang(e, u),
        star_lang(e, v),
    ensures
        star_lang(e, u + v),
    decreases u.len(),
{
    if u.len() == 0 {
        assert(u + v =~= v);
    } else {
        lemma_star_lang_split(e, u);
        let i = choose|i: int| #[trigger] star_split_at(e, u, i);
        lemma_star_concat(e, u.skip(i), v);
        let uv = u + v;
        assert(uv.take(i) =~= u.take(i));
        assert(uv.skip(i) =~= u.skip(i) + v);
        lemma_star_lang_split(e, uv);
        assert(star_split_at(e, uv, i));
    }
}

/// `Any` repeated matches every word.
proof fn lemma_star_any(w: Seq<Seq<u64>>)
    ensures
        star_lang(Re::Atom(Atom::Any), w),
    decreases w.len(),
{
    if w.len() > 0 {
        lemma_star_any(w.skip(1));
        lemma_star_lang_split(Re::Atom(Atom::Any), w);
        assert(w.take(1).len() == 1);
        assert(star_split_at(Re::Atom(Atom::Any), w, 1));
    }
}

/// A repetition of a repetition matches what the inner repetition matches.
proof fn lemma_star_star(x: Re, w: Seq<Seq<u64>>)
    ensures
        star_lang(Re::Repeat(Box::new(x)), w) == star_lang(x, w),
    decreases w.len(),
{
    let r = Re::Repeat(Box::new(x));
    lemma_star_lang_split(r, w);
    if w.len() > 0 {
        if star_lang(x, w) {
            assert(w.take(w.len() as int) =~= w);
            assert(w.skip(w.len() as int).len() == 0);
            assert(star_split_at(r, w, w.len() as int));
        }
        if star_lang(r, w) {
            let j = choose|j: int| #[trigger] star_split_at(r, w, j);
            lemma_star_star(x, w.skip(j));
            lemma_star_concat(x, w.take(j), w.skip(j));
            assert(w.take(j) + w.skip(j) =~= w);
        }
    }
}

/// The canonical Kleene star matches what the plain one does.
pub proof fn lemma_spec_repeat(r: Re, w: Seq<Seq<u64>>)
    ensures
        lang(spec_repeat(r), w) == star_lang(r, w),
{
    lemma_star_lang_split(r, w);
    match r {
        Re::Never => {
            if w.len() > 0 && star_lang(r, w) {
                let j = choose|j: int| #[trigger] star_split_at(r, w, j);
            }
        },
        Re::Epsilon => {
            if w.len() > 0 && star_lang(r, w) {
                let j = choose|j: int| #[trigger] star_split_at(r, w, j);
                assert(w.take(j).len() == j);
            }
        },
        Re::Universal => {
            if w.len() > 0 {
                assert(w.skip(w.len() as int).len() == 0);
                assert(star_split_at(r, w, w.len() as int));
            }
        },
        Re::Atom(Atom::Any) => {
            lemma_star_any(w);
        },
        Re::Repeat(x) => {
            assert(r == Re::Repeat(Box::new(*x)));
            lemma_star_star(*x, w);
        },
        _ => {},
    }
}

proof fn lemma_derive_each_index(es: Seq<Re>, a: Seq<u64>)
    ensures
        derive_each(es, a).len() == es.len(),
        forall|i: int| 0 <= i < es.len() ==> #[trigger] derive_each(es, a)[i] == spec_derivative(es[i], a),
    decreases es.len(),
{
    if es.len() > 0 {
        lemma_derive_each_index(es.drop_last(), a);
        assert forall|i: int| 0 <= i < es.len() implies #[trigger] derive_each(es, a)[i] == spec_derivative(es[i], a) by {
            if i < es.len() - 1 {
                assert(es.drop_last()[i] == es[i]);
            }
        }
    }
}

/// The derivative by `a` matches `w` exactly when the expression matches `a` then `w`.
pub proof fn lemma_derivative(r: Re, a: Seq<u64>, w: Seq<Seq<u64>>)
    ensures
        lang(spec_derivative(r, a), w) == lang(r, seq![a] + w),
    decreases r,
{
    let aw = seq![a] + w;
    assert(aw[0] == a);
    match r {
        Re::Choice(es) => {
            let ds = derive_each(es, a);
            lemma_spec_choice(ds, w);
            lemma_derive_each_index(es, a);
            lemma_any_lang(ds, w);
            lemma_any_lang(es, aw);
            assert forall|i: int| 0 <= i < es.len() implies #[trigger] lang(ds[i], w) == lang(es[i], aw) by {
                lemma_derivative(es[i], a, w);
            }
            if any_lang(ds, w) {
                let i = choose|i: int| 0 <= i < ds.len() && #[trigger] lang(ds[i], w);
                assert(lang(es[i], aw));
            }
            if any_lang(es, aw) {
                let i = choose|i: int| 0 <= i < es.len() && #[trigger] lang(es[i], aw);
                assert(lang(ds[i], w));
            }
        },
        Re::Intersection(es) => {
            let ds = derive_each(es, a);
            lemma_spec_intersection(ds, w);
            lemma_derive_each_index(es, a);
            lemma_all_lang(ds, w);
            lemma_all_lang(es, aw);
            assert forall|i: int| 0 <= i < es.len() implies #[trigger] lang(ds[i], w) == lang(es[i], aw) by {
                lemma_derivative(es[i], a, w);
            }
            if all_lang(ds, w) {
                assert forall|i: int| 0 <= i < es.len() implies #[trigger] lang(es[i], aw) by {
                    assert(lang(ds[i], w));
                }
            }
            if all_lang(es, aw) {
                assert forall|i: int| 0 <= i < ds.len() implies #[trigger] lang(ds[i], w) by {
                    assert(lang(es[i], aw));
                }
            }
        },
        Re::Sequence(es) => {
            lemma_spec_choice(sequence_alternatives(es, a), w);
            lemma_seq_alternatives(es, a, w);
        },
        Re::Repeat(e) => {
            let de = spec_derivative(*e, a);
            let pair = seq![de, r];
            lemma_spec_sequence(pair, w);
            lemma_seq_lang_split(pair, w);
            assert(pair.drop_first() =~= seq![r]);
            lemma_star_lang_split(*e, aw);
            if seq_lang(pair, w) {
                let j = choose|j: int| #[trigger] seq_split_at(pair, w, j);
                lemma_seq_single(r, w.skip(j));
                lemma_derivative(*e, a, w.take(j));
                assert(aw.take(j + 1) =~= seq![a] + w.take(j));
                assert(aw.skip(j + 1) =~= w.skip(j));
                assert(star_split_at(*e, aw, j + 1));
            }
            if lang(r, aw) {
                let k = choose|k: int| #[trigger] star_split_at(*e, aw, k);
                let j = k - 1;
                lemma_seq_single(r, w.skip(j));
                lemma_derivative(*e, a, w.take(j));
                assert(aw.take(j + 1) =~= seq![a] + w.take(j));
                assert(aw.skip(j + 1) =~= w.skip(j));
                assert(seq_split_at(pair, w, j));
            }
        },
        _ => {},
    }
}

/// The alternatives of a sequence's derivative match `w` exactly when the sequence
/// matches `a` then `w`.
proof fn lemma_seq_alternatives(es: Seq<Re>, a: Seq<u64>, w: Seq<Seq<u64>>)
    ensures
        any_lang(sequence_alternatives(es, a), w) == seq_lang(es, seq![a] + w),
    decreases es,
{
    let aw = seq![a] + w;
    if es.len() == 0 {
        return;
    }
    let e0 = es[0];
    let rest = es.drop_first();
    let de = spec_derivative(e0, a);
    let first_members = seq![de] + rest;
    let first = spec_sequence(first_members);
    let tail = if re_nullable(e0) {
        sequence_alternatives(rest, a)
    } else {
        Seq::empty()
    };
    let alts = sequence_alternatives(es, a);
    assert(alts == seq![first] + tail);
    assert(alts[0] == first);
    assert(alts.drop_first() =~= tail);
    lemma_spec_sequence(first_members, w);
    lemma_seq_lang_split(first_members, w);
    assert(first_members[0] == de);
    assert(first_members.drop_first() =~= rest);
    lemma_seq_lang_split(es, aw);
    lemma_seq_alternatives(rest, a, w);
    lemma_nullable(e0);
    assert(aw.take(0) =~= Seq::<Seq<u64>>::empty());
    assert(aw.skip(0) =~= aw);
    if any_lang(alts, w) {
        if lang(first, w) {
            let j = choose|j: int| #[trigger] seq_split_at(first_members, w, j);
            lemma_derivative(e0, a, w.take(j));
            assert(aw.take(j + 1) =~= seq![a] + w.take(j));
            assert(aw.skip(j + 1) =~= w.skip(j));
            assert(seq_split_at(es, aw, j + 1));
        } else {
            assert(any_lang(tail, w));
            assert(re_nullable(e0));
            assert(seq_split_at(es, aw, 0));
        }
    }
    if seq_lang(es, aw) {
        let k = choose|k: int| #[trigger] seq_split_at(es, aw, k);
        if k == 0 {
            assert(lang(e0, Seq::empty()));
            assert(any_lang(tail, w));
        } else {
            let j = k - 1;
            lemma_derivative(e0, a, w.take(j));
            assert(aw.take(j + 1) =~= seq![a] + w.take(j));
            assert(aw.skip(j + 1) =~= w.skip(j));
            assert(seq_split_at(first_members, w, j));
        }
    }
}

/// The derivative model decides the language: a word is accepted exactly when the
/// expression matches it.
pub proof fn lemma_accepts_lang(r: Re, w: Seq<Seq<u64>>)
    ensures
        accepts(r, w) == lang(r, w),
    decreases w.len(),
{
    if w.len() == 0 {
        lemma_nullable(r);
        assert(w =~= Seq::<Seq<u64>>::empty());
    } else {
        lemma_accepts_lang(spec_derivative(r, w[0]), w.drop_first());
        lemma_derivative(r, w[0], w.drop_first());
        assert(seq![w[0]] + w.drop_first() =~= w);
    }
}

/// A leading `Universal` member absorbs any prefix.
pub proof fn lemma_seq_universal_head(xs: Seq<Re>, w: Seq<Seq<u64>>)
    ensures
        seq_lang(seq![Re::Universal] + xs, w) == exists|k: int| 0 <= k <= w.len() && #[trigger] seq_lang(xs, w.skip(k)),
{
    let es = seq![Re::Universal] + xs;
    assert(es[0] == Re::Universal);
    assert(es.drop_first() =~= xs);
    lemma_seq_lang_split(es, w);
    if seq_lang(es, w) {
        let k = choose|k: int| #[trigger] seq_split_at(es, w, k);
        assert(seq_lang(xs, w.skip(k)));
    }
    if exists|k: int| 0 <= k <= w.len() && #[trigger] seq_lang(xs, w.skip(k)) {
        let k = choose|k: int| 0 <= k <= w.len() && #[trigger] seq_lang(xs, w.skip(k));
        assert(seq_split_at(es, w, k));
    }
}

/// A leading bit member matches exactly the first symbol, which must carry the bit.
pub proof fn lemma_seq_bit_head(b: usize, xs: Seq<Re>, w: Seq<Seq<u64>>)
    ensures
        seq_lang(seq![Re::Atom(Atom::Bit(b))] + xs, w) == (w.len() >= 1 && bit_set(w[0], b as int) && seq_lang(xs, w.skip(1))),
{
    let es = seq![Re::Atom(Atom::Bit(b))] + xs;
    assert(es[0] == Re::Atom(Atom::Bit(b)));
    assert(es.drop_first() =~= xs);
    lemma_seq_lang_split(es, w);
    if seq_lang(es, w) {
        let k = choose|k: int| #[trigger] seq_split_at(es, w, k);
        assert(w.take(k).len() == 1);
        assert(k == 1);
        assert(w.take(1)[0] == w[0]);
    }
    if w.len() >= 1 && bit_set(w[0], b as int) && seq_lang(xs, w.skip(1)) {
        assert(w.take(1)[0] == w[0]);
        assert(seq_split_at(es, w, 1));
    }
}

/// A leading `Epsilon` member matches nothing of the word.
pub proof fn lemma_seq_epsilon_head(xs: Seq<Re>, w: Seq<Seq<u64>>)
    ensures
        seq_lang(seq![Re::Epsilon] + xs, w) == seq_lang(xs, w),
{
    let es = seq![Re::Epsilon] + xs;
    assert(es[0] == Re::Epsilon);
    assert(es.drop_first() =~= xs);
    lemma_seq_lang_split(es, w);
    assert(w.skip(0) =~= w);
    if seq_lang(es, w) {
        let k = choose|k: int| #[trigger] seq_split_at(es, w, k);
        assert(w.take(k).len() == 0);
    }
    if seq_lang(xs, w) {
        assert(w.take(0).len() == 0);
        assert(seq_split_at(es, w, 0));
    }
}

/// `Universal`, then `x`, then `Universal`: some infix of the word matches `x`.
pub proof fn lemma_seq_somewhere(x: Re, w: Seq<Seq<u64>>)
    ensures
        seq_lang(seq![Re::Universal, x, Re::Universal], w) == exists|i: int, m: int|
            0 <= i && 0 <= m && i + m <= w.len() && #[trigger] lang(x, w.subrange(i, i + m)),
{
    let es = seq![Re::Universal, x, Re::Universal];
    let xu = seq![x, Re::Universal];
    assert(es =~= seq![Re::Universal] + xu);
    lemma_seq_universal_head(xu, w);
    assert(xu[0] == x);
    assert(xu.drop_first() =~= seq![Re::Universal]);
    if seq_lang(es, w) {
        let i = choose|i: int| 0 <= i <= w.len() && #[trigger] seq_lang(xu, w.skip(i));
        let t = w.skip(i);
        lemma_seq_lang_split(xu, t);
        let m = choose|m: int| #[trigger] seq_split_at(xu, t, m);
        assert(t.take(m) =~= w.subrange(i, i + m));
        assert(lang(x, w.subrange(i, i + m)));
    }
    if exists|i: int, m: int| 0 <= i && 0 <= m && i + m <= w.len() && #[trigger] lang(x, w.subrange(i, i + m)) {
        let (i, m) = choose|i: int, m: int| 0 <= i && 0 <= m && i + m <= w.len() && #[trigger] lang(x, w.subrange(i, i + m));
        let t = w.skip(i);
        assert(t.take(m) =~= w.subrange(i, i + m));
        lemma_seq_single(Re::Universal, t.skip(m));
        lemma_seq_lang_split(xu, t);
        assert(seq_split_at(xu, t, m));
        assert(seq_lang(xu, w.skip(i)));
    }
}

/// A bit atom matches one symbol carrying the bit.
pub proof fn lemma_bit_lang(b: usize, w: Seq<Seq<u64>>)
    ensures
        lang(Re::Atom(Atom::Bit(b)), w) == (w.len() == 1 && bit_set(w[0], b as int)),
{
}

/// `x` repeated where `x` matches single symbols: every symbol satisfies `x`.
pub proof fn lemma_star_symbols(x: Re, w: Seq<Seq<u64>>)
    requires
        forall|v: Seq<Seq<u64>>| #[trigger] lang(x, v) ==> v.len() == 1,
    ensures
        star_lang(x, w) == forall|i: int| 0 <= i < w.len() ==> #[trigger] lang(x, w.subrange(i, i + 1)),
    decreases w.len(),
{
    lemma_star_lang_split(x, w);
    if w.len() > 0 {
        let rest = w.skip(1);
        lemma_star_symbols(x, rest);
        if star_lang(x, w) {
            let j = choose|j: int| #[trigger] star_split_at(x, w, j);
            assert(w.take(j).len() == 1);
            assert(j == 1);
            assert forall|i: int| 0 <= i < w.len() implies #[trigger] lang(x, w.subrange(i, i + 1)) by {
                if i == 0 {
                    assert(w.subrange(0, 1) =~= w.take(1));
                } else {
                    let k = i - 1;
                    assert(rest.subrange(k, k + 1) =~= w.subrange(i, i + 1));
                    assert(lang(x, rest.subrange(k, k + 1)));
                }
            }
        }
        if forall|i: int| 0 <= i < w.len() ==> #[trigger] lang(x, w.subrange(i, i + 1)) {
            assert forall|i: int| 0 <= i < rest.len() implies #[trigger] lang(x, rest.subrange(i, i + 1)) by {
                let k = i + 1;
                assert(rest.subrange(i, i + 1) =~= w.subrange(k, k + 1));
                assert(lang(x, w.subrange(k, k + 1)));
            }
            let z: int = 0;
            assert(lang(x, w.subrange(z, z + 1)));
            assert(w.subrange(z, z + 1) =~= w.take(1));
            assert(star_split_at(x, w, 1));
        }
    }
}

} // verus!
