//! Bitset generalized regular expressions and their lazily built DFA.
//!
//! Every DFA state is a canonical Brzozowski derivative of the original pattern.
//! Transitions are cached, so advancing an already seen state by an already seen
//! bitset does not recompute the derivative.

use vstd::prelude::*;
use crate::regex_lang::{lang, lemma_accepts_lang};
use crate::regex_spec::{
    accepts, all_nullable, derive_word, lemma_reachable_step, reachable_from, any_epsilon, any_nullable, atom_lt, atom_matches, choice_members,
    collapse_universal, dedup_res, derive_each, ins_pos, insert_ordered, intersection_members,
    is_universal, lex_lt, re_lt, re_nullable, re_rank, sequence_alternatives, sequence_members,
    sort_res, spec_choice, spec_derivative, spec_intersection, spec_repeat, spec_sequence, Atom, Re,
};

verus! {

broadcast use vstd::std_specs::vec::group_vec_axioms;

/// A canonicalized generalized regular expression.
#[derive(Debug)]
pub enum Expression {
    Never,
    Epsilon,
    Universal,
    Atom(Atom),
    Choice(Vec<Expression>),
    Intersection(Vec<Expression>),
    Sequence(Vec<Expression>),
    Repeat(Box<Expression>),
}

pub open spec fn expr_view(e: Expression) -> Re
    decreases e,
{
    match e {
        Expression::Never => Re::Never,
        Expression::Epsilon => Re::Epsilon,
        Expression::Universal => Re::Universal,
        Expression::Atom(a) => Re::Atom(a),
        Expression::Choice(es) => Re::Choice(
            Seq::new(
                es@.len(),
                |i: int|
                    if 0 <= i < es@.len() {
                        expr_view(es@[i])
                    } else {
                        Re::Never
                    },
            ),
        ),
        Expression::Intersection(es) => Re::Intersection(
            Seq::new(
                es@.len(),
                |i: int|
                    if 0 <= i < es@.len() {
                        expr_view(es@[i])
                    } else {
                        Re::Never
                    },
            ),
        ),
        Expression::Sequence(es) => Re::Sequence(
            Seq::new(
                es@.len(),
                |i: int|
                    if 0 <= i < es@.len() {
                        expr_view(es@[i])
                    } else {
                        Re::Never
                    },
            ),
        ),
        Expression::Repeat(e) => Re::Repeat(Box::new(expr_view(*e))),
    }
}

impl View for Expression {
    type V = Re;

    open spec fn view(&self) -> Re {
        expr_view(*self)
    }
}

/// The models of a sequence of expressions.
pub open spec fn views(es: Seq<Expression>) -> Seq<Re> {
    Seq::new(es.len(), |i: int| es[i]@)
}

pub proof fn lemma_views_of_children(v: Vec<Expression>)
    ensures
        Expression::Choice(v)@ == Re::Choice(views(v@)),
        Expression::Intersection(v)@ == Re::Intersection(views(v@)),
        Expression::Sequence(v)@ == Re::Sequence(views(v@)),
{
    let s = Seq::new(
        v@.len(),
        |i: int|
            if 0 <= i < v@.len() {
                expr_view(v@[i])
            } else {
                Re::Never
            },
    );
    assert(s =~= views(v@));
    if let Re::Intersection(s2) = expr_view(Expression::Intersection(v)) {
        assert(s2 =~= views(v@));
    }
    if let Re::Sequence(s3) = expr_view(Expression::Sequence(v)) {
        assert(s3 =~= views(v@));
    }
}

proof fn lemma_lex_skip(xs: Seq<Re>, ys: Seq<Re>, i: int)
    requires
        0 <= i <= xs.len(),
        i <= ys.len(),
        forall|j: int| 0 <= j < i ==> xs[j] == ys[j],
    ensures
        lex_lt(xs, ys) == lex_lt(xs.skip(i), ys.skip(i)),
    decreases i,
{
    if i > 0 {
        lemma_lex_skip(xs.drop_first(), ys.drop_first(), i - 1);
        assert(xs.drop_first().skip(i - 1) =~= xs.skip(i));
        assert(ys.drop_first().skip(i - 1) =~= ys.skip(i));
    } else {
        assert(xs.skip(0) =~= xs);
        assert(ys.skip(0) =~= ys);
    }
}

proof fn lemma_skip_step<A>(s: Seq<A>, i: int)
    requires
        0 <= i < s.len(),
    ensures
        s.skip(i).len() > 0,
        s.skip(i)[0] == s[i],
        s.skip(i).drop_first() =~= s.skip(i + 1),
{
}

proof fn lemma_take_step<A>(s: Seq<A>, i: int)
    requires
        0 <= i < s.len(),
    ensures
        s.take(i + 1).drop_last() =~= s.take(i),
        s.take(i + 1).last() == s[i],
        s.take(i + 1).len() == i + 1,
{
}

impl Atom {
    /// Whether this atom accepts the bitset `symbol`.
    pub fn matches(&self, symbol: &[u64]) -> (r: bool)
        ensures
            r == atom_matches(*self, symbol@),
    {
        let bit = match self {
            Atom::Any => return true,
            Atom::Bit(bit) => *bit,
            Atom::NotBit(bit) => *bit,
        };
        let index = bit / 64;
        let is_set = if index < symbol.len() {
            let word = symbol[index];
            let shift: u64 = (bit % 64) as u64;
            let set = word & (1u64 << shift) != 0;
            assert(set == ((word >> shift) & 1u64 == 1u64)) by (bit_vector)
                requires
                    shift < 64,
                    set == (word & (1u64 << shift) != 0),
            ;
            set
        } else {
            false
        };
        match self {
            Atom::NotBit(_) => !is_set,
            _ => is_set,
        }
    }
}

fn rank(e: &Expression) -> (r: u8)
    ensures
        r as int == re_rank(e@),
{
    match e {
        Expression::Never => 0,
        Expression::Epsilon => 1,
        Expression::Universal => 2,
        Expression::Atom(_) => 3,
        Expression::Choice(_) => 4,
        Expression::Intersection(_) => 5,
        Expression::Sequence(_) => 6,
        Expression::Repeat(_) => 7,
    }
}

fn compare_atoms(a: &Atom, b: &Atom) -> (r: i8)
    ensures
        (r == 0) == (*a == *b),
        (r < 0) == atom_lt(*a, *b),
{
    match (a, b) {
        (Atom::Any, Atom::Any) => 0,
        (Atom::Any, _) => -1,
        (Atom::Bit(_), Atom::Any) => 1,
        (Atom::Bit(x), Atom::Bit(y)) => if *x < *y {
            -1
        } else if *x == *y {
            0
        } else {
            1
        },
        (Atom::Bit(_), Atom::NotBit(_)) => -1,
        (Atom::NotBit(x), Atom::NotBit(y)) => if *x < *y {
            -1
        } else if *x == *y {
            0
        } else {
            1
        },
        (Atom::NotBit(_), _) => 1,
    }
}

/// Three-way comparison: zero for equal expressions, negative when `a` comes first.
pub fn compare_exprs(a: &Expression, b: &Expression) -> (r: i8)
    ensures
        (r == 0) == (a@ == b@),
        (r < 0) == re_lt(a@, b@),
    decreases a,
{
    let ra = rank(a);
    let rb = rank(b);
    if ra < rb {
        return -1;
    }
    if ra > rb {
        return 1;
    }
    match (a, b) {
        (Expression::Atom(x), Expression::Atom(y)) => compare_atoms(x, y),
        (Expression::Choice(xs), Expression::Choice(ys)) => {
            proof {
                lemma_views_of_children(*xs);
                lemma_views_of_children(*ys);
            }
            compare_vecs(xs, ys)
        },
        (Expression::Intersection(xs), Expression::Intersection(ys)) => {
            proof {
                lemma_views_of_children(*xs);
                lemma_views_of_children(*ys);
            }
            compare_vecs(xs, ys)
        },
        (Expression::Sequence(xs), Expression::Sequence(ys)) => {
            proof {
                lemma_views_of_children(*xs);
                lemma_views_of_children(*ys);
            }
            compare_vecs(xs, ys)
        },
        (Expression::Repeat(x), Expression::Repeat(y)) => compare_exprs(x, y),
        _ => 0,
    }
}

/// Lexicographic three-way comparison of member lists.
fn compare_vecs(xs: &Vec<Expression>, ys: &Vec<Expression>) -> (r: i8)
    ensures
        (r == 0) == (views(xs@) == views(ys@)),
        (r < 0) == lex_lt(views(xs@), views(ys@)),
    decreases xs,
{
    let ghost vx = views(xs@);
    let ghost vy = views(ys@);
    let mut i: usize = 0;
    while i < xs.len() && i < ys.len()
        invariant
            vx == views(xs@),
            vy == views(ys@),
            i <= xs.len(),
            i <= ys.len(),
            forall|j: int| 0 <= j < i ==> vx[j] == vy[j],
        decreases xs.len() - i,
    {
        let c = compare_exprs(&xs[i], &ys[i]);
        if c != 0 {
            proof {
                lemma_lex_skip(vx, vy, i as int);
                lemma_skip_step(vx, i as int);
                lemma_skip_step(vy, i as int);
                assert(vx[i as int] != vy[i as int]);
            }
            return c;
        }
        i += 1;
    }
    proof {
        lemma_lex_skip(vx, vy, i as int);
    }
    if xs.len() < ys.len() {
        assert(vx.len() != vy.len());
        -1
    } else if xs.len() > ys.len() {
        assert(vx.len() != vy.len());
        1
    } else {
        assert(vx =~= vy);
        0
    }
}

/// A deep copy.
pub fn copy_expr(e: &Expression) -> (r: Expression)
    ensures
        r@ == e@,
    decreases e,
{
    match e {
        Expression::Never => Expression::Never,
        Expression::Epsilon => Expression::Epsilon,
        Expression::Universal => Expression::Universal,
        Expression::Atom(a) => Expression::Atom(*a),
        Expression::Choice(es) => {
            let c = copy_vec(es);
            proof {
                lemma_views_of_children(*es);
                lemma_views_of_children(c);
            }
            Expression::Choice(c)
        },
        Expression::Intersection(es) => {
            let c = copy_vec(es);
            proof {
                lemma_views_of_children(*es);
                lemma_views_of_children(c);
            }
            Expression::Intersection(c)
        },
        Expression::Sequence(es) => {
            let c = copy_vec(es);
            proof {
                lemma_views_of_children(*es);
                lemma_views_of_children(c);
            }
            Expression::Sequence(c)
        },
        Expression::Repeat(inner) => Expression::Repeat(Box::new(copy_expr(inner))),
    }
}

fn copy_vec(es: &Vec<Expression>) -> (r: Vec<Expression>)
    ensures
        views(r@) == views(es@),
    decreases es,
{
    let mut out: Vec<Expression> = Vec::new();
    let mut i: usize = 0;
    while i < es.len()
        invariant
            i <= es.len(),
            views(out@) =~= views(es@).take(i as int),
        decreases es.len() - i,
    {
        let c = copy_expr(&es[i]);
        let ghost before = views(out@);
        out.push(c);
        assert(views(out@) =~= before.push(c@));
        i += 1;
    }
    assert(views(es@).take(es.len() as int) =~= views(es@));
    out
}

/// Appends deep copies of `src[from..]` to `dst`.
fn extend_copies(dst: &mut Vec<Expression>, src: &Vec<Expression>, from: usize)
    requires
        from <= src.len(),
    ensures
        views(final(dst)@) == views(old(dst)@) + views(src@).skip(from as int),
{
    let ghost start = views(dst@);
    let mut i: usize = from;
    while i < src.len()
        invariant
            from <= i <= src.len(),
            views(dst@) =~= start + views(src@).subrange(from as int, i as int),
        decreases src.len() - i,
    {
        let c = copy_expr(&src[i]);
        let ghost before = views(dst@);
        dst.push(c);
        assert(views(dst@) =~= before.push(c@));
        i += 1;
    }
    assert(views(src@).subrange(from as int, src.len() as int) =~= views(src@).skip(from as int));
}

proof fn lemma_any_nullable_step(s: Seq<Re>, i: int)
    requires
        0 <= i < s.len(),
    ensures
        any_nullable(s.skip(i)) == (re_nullable(s[i]) || any_nullable(s.skip(i + 1))),
        all_nullable(s.skip(i)) == (re_nullable(s[i]) && all_nullable(s.skip(i + 1))),
        any_epsilon(s.skip(i)) == (s[i] is Epsilon || any_epsilon(s.skip(i + 1))),
{
    lemma_skip_step(s, i);
}

fn any_nullable_exec(es: &Vec<Expression>) -> (r: bool)
    ensures
        r == any_nullable(views(es@)),
    decreases es,
{
    let ghost v = views(es@);
    assert(v.skip(0) =~= v);
    let mut i: usize = 0;
    while i < es.len()
        invariant
            v == views(es@),
            i <= es.len(),
            any_nullable(v) == any_nullable(v.skip(i as int)),
        decreases es.len() - i,
    {
        proof {
            lemma_any_nullable_step(v, i as int);
        }
        if es[i].nullable() {
            return true;
        }
        i += 1;
    }
    assert(v.skip(i as int).len() == 0);
    false
}

fn all_nullable_exec(es: &Vec<Expression>) -> (r: bool)
    ensures
        r == all_nullable(views(es@)),
    decreases es,
{
    let ghost v = views(es@);
    assert(v.skip(0) =~= v);
    let mut i: usize = 0;
    while i < es.len()
        invariant
            v == views(es@),
            i <= es.len(),
            all_nullable(v) == all_nullable(v.skip(i as int)),
        decreases es.len() - i,
    {
        proof {
            lemma_any_nullable_step(v, i as int);
        }
        if !es[i].nullable() {
            return false;
        }
        i += 1;
    }
    assert(v.skip(i as int).len() == 0);
    true
}

fn any_epsilon_exec(es: &Vec<Expression>) -> (r: bool)
    ensures
        r == any_epsilon(views(es@)),
{
    let ghost v = views(es@);
    assert(v.skip(0) =~= v);
    let mut i: usize = 0;
    while i < es.len()
        invariant
            v == views(es@),
            i <= es.len(),
            any_epsilon(v) == any_epsilon(v.skip(i as int)),
        decreases es.len() - i,
    {
        proof {
            lemma_any_nullable_step(v, i as int);
        }
        if let Expression::Epsilon = &es[i] {
            return true;
        }
        i += 1;
    }
    assert(v.skip(i as int).len() == 0);
    false
}

proof fn lemma_sort_step(s: Seq<Re>, i: int)
    requires
        0 <= i < s.len(),
    ensures
        sort_res(s.take(i + 1)) == insert_ordered(sort_res(s.take(i)), s[i]),
        dedup_res(s.take(i + 1)) == ({
            let d = dedup_res(s.take(i));
            if d.len() > 0 && d.last() == s[i] {
                d
            } else {
                d.push(s[i])
            }
        }),
{
    lemma_take_step(s, i);
}

/// Sorts by `re_lt` (insertion sort).
fn sort_exprs(v: Vec<Expression>) -> (r: Vec<Expression>)
    ensures
        views(r@) == sort_res(views(v@)),
{
    let ghost s = views(v@);
    let mut out: Vec<Expression> = Vec::new();
    let mut i: usize = 0;
    assert(s.take(0) =~= Seq::<Re>::empty());
    while i < v.len()
        invariant
            s == views(v@),
            i <= v.len(),
            views(out@) == sort_res(s.take(i as int)),
        decreases v.len() - i,
    {
        let x = copy_expr(&v[i]);
        let ghost t = views(out@);
        let mut pos: usize = 0;
        assert(t.skip(0) =~= t);
        while pos < out.len() && compare_exprs(&out[pos], &x) < 0
            invariant
                t == views(out@),
                pos <= out.len(),
                ins_pos(t, x@) == pos + ins_pos(t.skip(pos as int), x@),
            decreases out.len() - pos,
        {
            proof {
                lemma_skip_step(t, pos as int);
            }
            pos += 1;
        }
        proof {
            if pos < out.len() {
                lemma_skip_step(t, pos as int);
            }
            lemma_sort_step(s, i as int);
        }
        out.insert(pos, x);
        assert(views(out@) =~= t.take(pos as int) + seq![x@] + t.skip(pos as int));
        i += 1;
    }
    assert(s.take(v.len() as int) =~= s);
    out
}

/// Removes consecutive duplicates.
fn dedup_exprs(v: Vec<Expression>) -> (r: Vec<Expression>)
    ensures
        views(r@) == dedup_res(views(v@)),
{
    let ghost s = views(v@);
    let mut out: Vec<Expression> = Vec::new();
    let mut i: usize = 0;
    assert(s.take(0) =~= Seq::<Re>::empty());
    while i < v.len()
        invariant
            s == views(v@),
            i <= v.len(),
            views(out@) == dedup_res(s.take(i as int)),
        decreases v.len() - i,
    {
        proof {
            lemma_sort_step(s, i as int);
        }
        let n = out.len();
        let keep = n == 0 || compare_exprs(&out[n - 1], &v[i]) != 0;
        if keep {
            let x = copy_expr(&v[i]);
            out.push(x);
            assert(views(out@) =~= views(out@).drop_last().push(x@));
        }
        assert(views(out@) =~= dedup_res(s.take(i + 1)));
        i += 1;
    }
    assert(s.take(v.len() as int) =~= s);
    out
}

proof fn lemma_members_none_persists(es: Seq<Re>, k: int)
    requires
        0 <= k <= es.len(),
    ensures
        choice_members(es.take(k)) is None ==> choice_members(es) is None,
        intersection_members(es.take(k)) is None ==> intersection_members(es) is None,
        sequence_members(es.take(k)) is None ==> sequence_members(es) is None,
    decreases es.len() - k,
{
    if k == es.len() {
        assert(es.take(k) =~= es);
    } else {
        lemma_take_step(es, k);
        lemma_members_none_persists(es, k + 1);
    }
}

/// Moves the single member out of a one-element vector.
fn only_member(v: Vec<Expression>) -> (r: Expression)
    requires
        v.len() == 1,
    ensures
        r@ == views(v@)[0],
{
    let mut v = v;
    v.pop().unwrap()
}

impl Expression {
    /// Canonical union.
    pub fn choice(expressions: Vec<Expression>) -> (r: Expression)
        ensures
            r@ == spec_choice(views(expressions@)),
    {
        let ghost s = views(expressions@);
        let mut flattened: Vec<Expression> = Vec::new();
        let mut i: usize = 0;
        assert(s.take(0) =~= Seq::<Re>::empty());
        while i < expressions.len()
            invariant
                s == views(expressions@),
                i <= expressions.len(),
                choice_members(s.take(i as int)) == Some(views(flattened@)),
            decreases expressions.len() - i,
        {
            proof {
                lemma_take_step(s, i as int);
            }
            match &expressions[i] {
                Expression::Never => {},
                Expression::Universal => {
                    proof {
                        lemma_members_none_persists(s, i + 1);
                    }
                    return Expression::Universal;
                },
                Expression::Choice(inner) => {
                    proof {
                        lemma_views_of_children(*inner);
                    }
                    extend_copies(&mut flattened, inner, 0);
                    assert(views(inner@).skip(0) =~= views(inner@));
                },
                e => {
                    let c = copy_expr(e);
                    flattened.push(c);
                    assert(views(flattened@) =~= views(flattened@).drop_last().push(c@));
                },
            }
            i += 1;
        }
        assert(s.take(expressions.len() as int) =~= s);
        let sorted = sort_exprs(flattened);
        let deduped = dedup_exprs(sorted);
        if deduped.len() == 0 {
            Expression::Never
        } else if deduped.len() == 1 {
            only_member(deduped)
        } else {
            proof {
                lemma_views_of_children(deduped);
            }
            Expression::Choice(deduped)
        }
    }

    /// Canonical intersection.
    pub fn intersection(expressions: Vec<Expression>) -> (r: Expression)
        ensures
            r@ == spec_intersection(views(expressions@)),
    {
        let ghost s = views(expressions@);
        let mut flattened: Vec<Expression> = Vec::new();
        let mut i: usize = 0;
        assert(s.take(0) =~= Seq::<Re>::empty());
        while i < expressions.len()
            invariant
                s == views(expressions@),
                i <= expressions.len(),
                intersection_members(s.take(i as int)) == Some(views(flattened@)),
            decreases expressions.len() - i,
        {
            proof {
                lemma_take_step(s, i as int);
            }
            match &expressions[i] {
                Expression::Universal => {},
                Expression::Never => {
                    proof {
                        lemma_members_none_persists(s, i + 1);
                    }
                    return Expression::Never;
                },
                Expression::Intersection(inner) => {
                    proof {
                        lemma_views_of_children(*inner);
                    }
                    extend_copies(&mut flattened, inner, 0);
                    assert(views(inner@).skip(0) =~= views(inner@));
                },
                e => {
                    let c = copy_expr(e);
                    flattened.push(c);
                    assert(views(flattened@) =~= views(flattened@).drop_last().push(c@));
                },
            }
            i += 1;
        }
        assert(s.take(expressions.len() as int) =~= s);
        if any_epsilon_exec(&flattened) {
            return if all_nullable_exec(&flattened) {
                Expression::Epsilon
            } else {
                Expression::Never
            };
        }
        let sorted = sort_exprs(flattened);
        let deduped = dedup_exprs(sorted);
        if deduped.len() == 0 {
            Expression::Universal
        } else if deduped.len() == 1 {
            only_member(deduped)
        } else {
            proof {
                lemma_views_of_children(deduped);
            }
            Expression::Intersection(deduped)
        }
    }

    /// Canonical concatenation.
    pub fn sequence(expressions: Vec<Expression>) -> (r: Expression)
        ensures
            r@ == spec_sequence(views(expressions@)),
    {
        let ghost s = views(expressions@);
        let mut flattened: Vec<Expression> = Vec::new();
        let mut i: usize = 0;
        assert(s.take(0) =~= Seq::<Re>::empty());
        while i < expressions.len()
            invariant
                s == views(expressions@),
                i <= expressions.len(),
                sequence_members(s.take(i as int)) == Some(views(flattened@)),
            decreases expressions.len() - i,
        {
            proof {
                lemma_take_step(s, i as int);
            }
            match &expressions[i] {
                Expression::Epsilon => {},
                Expression::Never => {
                    proof {
                        lemma_members_none_persists(s, i + 1);
                    }
                    return Expression::Never;
                },
                Expression::Sequence(inner) => {
                    proof {
                        lemma_views_of_children(*inner);
                    }
                    extend_copies(&mut flattened, inner, 0);
                    assert(views(inner@).skip(0) =~= views(inner@));
                },
                e => {
                    let c = copy_expr(e);
                    flattened.push(c);
                    assert(views(flattened@) =~= views(flattened@).drop_last().push(c@));
                },
            }
            i += 1;
        }
        assert(s.take(expressions.len() as int) =~= s);
        let ghost f = views(flattened@);
        let mut kept: Vec<Expression> = Vec::new();
        let mut previous_was_universal = false;
        let mut j: usize = 0;
        assert(f.take(0) =~= Seq::<Re>::empty());
        while j < flattened.len()
            invariant
                f == views(flattened@),
                j <= flattened.len(),
                views(kept@) == collapse_universal(f.take(j as int)),
                previous_was_universal == (j > 0 && is_universal(f[j - 1])),
            decreases flattened.len() - j,
        {
            proof {
                lemma_take_step(f, j as int);
            }
            let is_universal = match &flattened[j] {
                Expression::Universal => true,
                _ => false,
            };
            if !is_universal || !previous_was_universal {
                let c = copy_expr(&flattened[j]);
                kept.push(c);
                assert(views(kept@) =~= views(kept@).drop_last().push(c@));
            }
            previous_was_universal = is_universal;
            j += 1;
        }
        assert(f.take(flattened.len() as int) =~= f);
        if kept.len() == 0 {
            Expression::Epsilon
        } else if kept.len() == 1 {
            only_member(kept)
        } else {
            proof {
                lemma_views_of_children(kept);
            }
            Expression::Sequence(kept)
        }
    }

    /// Canonical Kleene star.
    pub fn repeat(expression: Expression) -> (r: Expression)
        ensures
            r@ == spec_repeat(expression@),
    {
        match expression {
            Expression::Never => Expression::Epsilon,
            Expression::Epsilon => Expression::Epsilon,
            Expression::Universal => Expression::Universal,
            Expression::Atom(Atom::Any) => Expression::Universal,
            Expression::Repeat(inner) => Expression::Repeat(inner),
            expression => Expression::Repeat(Box::new(expression)),
        }
    }

    /// Whether the expression matches the empty word.
    pub fn nullable(&self) -> (r: bool)
        ensures
            r == re_nullable(self@),
        decreases self,
    {
        match self {
            Expression::Never => false,
            Expression::Atom(_) => false,
            Expression::Epsilon => true,
            Expression::Universal => true,
            Expression::Repeat(_) => true,
            Expression::Choice(es) => {
                proof {
                    lemma_views_of_children(*es);
                }
                any_nullable_exec(es)
            },
            Expression::Intersection(es) => {
                proof {
                    lemma_views_of_children(*es);
                }
                all_nullable_exec(es)
            },
            Expression::Sequence(es) => {
                proof {
                    lemma_views_of_children(*es);
                }
                all_nullable_exec(es)
            },
        }
    }

    /// The Brzozowski derivative for one input bitset.
    pub fn derivative(&self, symbol: &[u64]) -> (r: Expression)
        ensures
            r@ == spec_derivative(self@, symbol@),
        decreases self,
    {
        match self {
            Expression::Never => Expression::Never,
            Expression::Epsilon => Expression::Never,
            Expression::Universal => Expression::Universal,
            Expression::Atom(atom) => {
                if atom.matches(symbol) {
                    Expression::Epsilon
                } else {
                    Expression::Never
                }
            },
            Expression::Choice(expressions) => {
                proof {
                    lemma_views_of_children(*expressions);
                }
                let d = derive_each_exec(expressions, symbol);
                Expression::choice(d)
            },
            Expression::Intersection(expressions) => {
                proof {
                    lemma_views_of_children(*expressions);
                }
                let d = derive_each_exec(expressions, symbol);
                Expression::intersection(d)
            },
            Expression::Sequence(expressions) => {
                proof {
                    lemma_views_of_children(*expressions);
                }
                let choices = sequence_alternatives_exec(expressions, symbol);
                Expression::choice(choices)
            },
            Expression::Repeat(expression) => {
                let d = expression.derivative(symbol);
                let again = Expression::Repeat(Box::new(copy_expr(expression)));
                let parts = vec![d, again];
                assert(views(parts@) =~= seq![spec_derivative(expression@, symbol@), self@]);
                Expression::sequence(parts)
            },
        }
    }
}

fn derive_each_exec(es: &Vec<Expression>, symbol: &[u64]) -> (r: Vec<Expression>)
    ensures
        views(r@) == derive_each(views(es@), symbol@),
    decreases es,
{
    let ghost s = views(es@);
    let mut out: Vec<Expression> = Vec::new();
    let mut i: usize = 0;
    assert(s.take(0) =~= Seq::<Re>::empty());
    while i < es.len()
        invariant
            s == views(es@),
            i <= es.len(),
            views(out@) == derive_each(s.take(i as int), symbol@),
        decreases es.len() - i,
    {
        proof {
            lemma_take_step(s, i as int);
        }
        let d = es[i].derivative(symbol);
        out.push(d);
        assert(views(out@) =~= views(out@).drop_last().push(d@));
        i += 1;
    }
    assert(s.take(es.len() as int) =~= s);
    out
}

fn sequence_alternatives_exec(es: &Vec<Expression>, symbol: &[u64]) -> (r: Vec<Expression>)
    ensures
        views(r@) == sequence_alternatives(views(es@), symbol@),
    decreases es,
{
    let ghost s = views(es@);
    let mut choices: Vec<Expression> = Vec::new();
    let mut index: usize = 0;
    assert(s.skip(0) =~= s);
    while index < es.len()
        invariant
            s == views(es@),
            index <= es.len(),
            views(choices@) + sequence_alternatives(s.skip(index as int), symbol@)
                == sequence_alternatives(s, symbol@),
        decreases es.len() - index,
    {
        proof {
            lemma_skip_step(s, index as int);
        }
        let mut parts: Vec<Expression> = Vec::new();
        let d = es[index].derivative(symbol);
        parts.push(d);
        extend_copies(&mut parts, es, index + 1);
        assert(views(parts@) =~= seq![spec_derivative(s[index as int], symbol@)] + s.skip(
            index + 1,
        ));
        let alternative = Expression::sequence(parts);
        choices.push(alternative);
        let ghost rest = sequence_alternatives(s.skip(index + 1), symbol@);
        if !es[index].nullable() {
            assert(views(choices@) =~= sequence_alternatives(s, symbol@));
            return choices;
        }
        assert(views(choices@) + rest =~= sequence_alternatives(s, symbol@));
        index += 1;
    }
    assert(views(choices@) =~= sequence_alternatives(s, symbol@));
    choices
}

/// Construction API for a [`GenRegExp`].
#[derive(Debug)]
pub struct Pattern(pub Expression);

impl View for Pattern {
    type V = Re;

    open spec fn view(&self) -> Re {
        self.0@
    }
}

pub open spec fn pattern_views(ps: Seq<Pattern>) -> Seq<Re> {
    Seq::new(ps.len(), |i: int| ps[i]@)
}

fn pattern_expressions(patterns: Vec<Pattern>) -> (r: Vec<Expression>)
    ensures
        views(r@) == pattern_views(patterns@),
{
    let mut out: Vec<Expression> = Vec::new();
    let mut i: usize = 0;
    while i < patterns.len()
        invariant
            i <= patterns.len(),
            views(out@) =~= pattern_views(patterns@).take(i as int),
        decreases patterns.len() - i,
    {
        let c = copy_expr(&patterns[i].0);
        let ghost before = views(out@);
        out.push(c);
        assert(views(out@) =~= before.push(c@));
        i += 1;
    }
    assert(pattern_views(patterns@).take(patterns.len() as int) =~= pattern_views(patterns@));
    out
}

impl Pattern {
    /// Matches every word, including the empty word.
    pub fn universal() -> (r: Pattern)
        ensures
            r@ == spec_repeat(Re::Atom(Atom::Any)),
            r@ == Re::Universal,
    {
        Pattern(Expression::repeat(Expression::Atom(Atom::Any)))
    }

    /// Matches one bitset containing `bit`.
    pub fn bit(bit: usize) -> (r: Pattern)
        ensures
            r@ == Re::Atom(Atom::Bit(bit)),
    {
        Pattern(Expression::Atom(Atom::Bit(bit)))
    }

    /// Matches one bitset not containing `bit`.
    pub fn not_bit(bit: usize) -> (r: Pattern)
        ensures
            r@ == Re::Atom(Atom::NotBit(bit)),
    {
        Pattern(Expression::Atom(Atom::NotBit(bit)))
    }

    pub fn choice(patterns: Vec<Pattern>) -> (r: Pattern)
        ensures
            r@ == spec_choice(pattern_views(patterns@)),
    {
        Pattern(Expression::choice(pattern_expressions(patterns)))
    }

    pub fn intersection(patterns: Vec<Pattern>) -> (r: Pattern)
        ensures
            r@ == spec_intersection(pattern_views(patterns@)),
    {
        Pattern(Expression::intersection(pattern_expressions(patterns)))
    }

    pub fn sequence(patterns: Vec<Pattern>) -> (r: Pattern)
        ensures
            r@ == spec_sequence(pattern_views(patterns@)),
    {
        Pattern(Expression::sequence(pattern_expressions(patterns)))
    }

    pub fn repeat(self) -> (r: Pattern)
        ensures
            r@ == spec_repeat(self@),
    {
        Pattern(Expression::repeat(self.0))
    }

    /// Matches the empty word only.
    pub fn epsilon() -> (r: Pattern)
        ensures
            r@ == Re::Epsilon,
    {
        Pattern(Expression::Epsilon)
    }

    /// Matches any single bitset.
    pub fn any_symbol() -> (r: Pattern)
        ensures
            r@ == Re::Atom(Atom::Any),
    {
        Pattern(Expression::Atom(Atom::Any))
    }
}

/// One DFA state: a canonical derivative of the pattern.
#[derive(Debug)]
pub struct DfaState {
    pub expression: Expression,
    pub accepting: bool,
}

/// A cached transition: `from` advanced by `symbol` is `to`.
#[derive(Debug)]
pub struct Transition {
    pub from: usize,
    pub symbol: Vec<u64>,
    pub to: usize,
}

/// A lazily constructed DFA for regular expressions whose input symbols are
/// vectors of 64-bit words.
#[derive(Debug)]
pub struct GenRegExp {
    states: Vec<DfaState>,
    transitions: Vec<Transition>,
    operations: usize,
}

/// The models of a word's symbols.
pub open spec fn word_view(word: Seq<Vec<u64>>) -> Seq<Seq<u64>> {
    Seq::new(word.len(), |i: int| word[i]@)
}

fn symbols_equal(a: &[u64], b: &[u64]) -> (r: bool)
    ensures
        r == (a@ == b@),
{
    if a.len() != b.len() {
        return false;
    }
    let mut i: usize = 0;
    while i < a.len()
        invariant
            a.len() == b.len(),
            i <= a.len(),
            forall|j: int| 0 <= j < i ==> a@[j] == b@[j],
        decreases a.len() - i,
    {
        if a[i] != b[i] {
            return false;
        }
        i += 1;
    }
    assert(a@ =~= b@);
    true
}

fn copy_symbol(a: &[u64]) -> (r: Vec<u64>)
    ensures
        r@ == a@,
{
    let mut out: Vec<u64> = Vec::new();
    let mut i: usize = 0;
    while i < a.len()
        invariant
            i <= a.len(),
            out@ =~= a@.take(i as int),
        decreases a.len() - i,
    {
        out.push(a[i]);
        i += 1;
    }
    assert(a@.take(a.len() as int) =~= a@);
    out
}

impl GenRegExp {
    /// The expression of state `i`.
    pub closed spec fn state_re(&self, i: int) -> Re {
        self.states@[i].expression@
    }

    /// The number of states built so far.
    pub closed spec fn num_states(&self) -> nat {
        self.states@.len()
    }

    /// The number of transitions taken so far.
    pub closed spec fn spec_operations(&self) -> nat {
        self.operations as nat
    }

    /// Every state's acceptance is its nullability, no two states hold the same
    /// expression, and every cached transition leads to the state holding the derivative
    /// of its source.
    pub closed spec fn wf(&self) -> bool {
        &&& self.states@.len() > 0
        &&& forall|i: int, j: int|
            0 <= i < j < self.states@.len() ==> (#[trigger] self.states@[i]).expression@ != (#[trigger] self.states@[j]).expression@
        &&& forall|i: int|
            0 <= i < self.states@.len() ==> #[trigger] self.states@[i].accepting == re_nullable(
                self.states@[i].expression@,
            )
        &&& forall|i: int|
            0 <= i < self.states@.len() ==> reachable_from(
                self.states@[0].expression@,
                (#[trigger] self.states@[i]).expression@,
            )
        &&& forall|k: int|
            0 <= k < self.transitions@.len() ==> {
                let t = #[trigger] self.transitions@[k];
                &&& t.from < self.states@.len()
                &&& t.to < self.states@.len()
                &&& self.states@[t.to as int].expression@ == spec_derivative(
                    self.states@[t.from as int].expression@,
                    t.symbol@,
                )
            }
    }

    /// A well-formed DFA has at least its start state.
    pub proof fn lemma_has_start(&self)
        requires
            self.wf(),
        ensures
            self.num_states() > 0,
    {
    }

    /// Every state is the start state's expression derived by some word.
    pub proof fn lemma_reachable(&self, i: int)
        requires
            self.wf(),
            0 <= i < self.num_states(),
        ensures
            reachable_from(self.state_re(0), self.state_re(i)),
    {
        assert(reachable_from(self.states@[0].expression@, self.states@[i].expression@));
    }

    pub fn new(pattern: Pattern) -> (r: GenRegExp)
        ensures
            r.wf(),
            r.num_states() == 1,
            r.state_re(0) == pattern@,
            r.spec_operations() == 0,
    {
        let expression = pattern.0;
        let accepting = expression.nullable();
        assert(derive_word(expression@, Seq::empty()) == expression@);
        let mut states: Vec<DfaState> = Vec::new();
        states.push(DfaState { expression, accepting });
        GenRegExp { states, transitions: Vec::new(), operations: 0 }
    }

    pub fn start_state(&self) -> (r: usize)
        ensures
            r == 0,
    {
        0
    }

    /// Advances `state` by one bitset and returns the resulting DFA state.
    pub fn transition(&mut self, state: usize, symbol: &[u64]) -> (r: usize)
        requires
            old(self).wf(),
            state < old(self).num_states(),
        ensures
            final(self).wf(),
            final(self).num_states() >= old(self).num_states(),
            forall|i: int| 0 <= i < old(self).num_states() ==> final(self).state_re(i) == old(self).state_re(i),
            r < final(self).num_states(),
            final(self).state_re(r as int) == spec_derivative(old(self).state_re(state as int), symbol@),
            (exists|j: int| 0 <= j < old(self).num_states() && old(self).state_re(j) == spec_derivative(old(self).state_re(state as int), symbol@))
                ==> final(self).num_states() == old(self).num_states(),
            forall|j: int|
                0 <= j < old(self).num_states() && #[trigger] old(self).state_re(j) == spec_derivative(old(self).state_re(state as int), symbol@)
                    ==> r == j,
            final(self).num_states() <= old(self).num_states() + 1,
            final(self).spec_operations() == if old(self).spec_operations() < usize::MAX {
                old(self).spec_operations() + 1
            } else {
                old(self).spec_operations()
            },
    {
        if self.operations < usize::MAX {
            self.operations = self.operations + 1;
        }
        let mut k: usize = 0;
        while k < self.transitions.len()
            invariant
                self.wf(),
                state < self.states.len(),
                self.states@ == old(self).states@,
                self.operations == (if old(self).operations < usize::MAX {
                    old(self).operations + 1
                } else {
                    old(self).operations as int
                }),
                k <= self.transitions.len(),
            decreases self.transitions.len() - k,
        {
            let t = &self.transitions[k];
            if t.from == state && symbols_equal(&t.symbol, symbol) {
                proof {
                    assert forall|j: int|
                        0 <= j < old(self).num_states() && #[trigger] old(self).state_re(j) == spec_derivative(old(self).state_re(state as int), symbol@)
                            implies t.to == j by {
                        let a = self.states@[j];
                        let b = self.states@[t.to as int];
                        assert(a.expression@ == b.expression@);
                    }
                }
                return t.to;
            }
            k += 1;
        }
        let derivative = self.states[state].expression.derivative(symbol);
        let next = match self.find_state(&derivative) {
            Some(next) => next,
            None => {
                proof {
                    assert forall|j: int| 0 <= j < old(self).num_states() implies old(self).state_re(j) != derivative@ by {
                        assert(self.state_re(j) == old(self).state_re(j));
                    }
                }
                proof {
                    assert(reachable_from(self.states@[0].expression@, self.states@[state as int].expression@));
                    lemma_reachable_step(self.states@[0].expression@, self.states@[state as int].expression@, symbol@);
                }
                let next = self.states.len();
                let accepting = derivative.nullable();
                let ghost dv = derivative@;
                let ghost before = self.states@;
                self.states.push(DfaState { expression: derivative, accepting });
                proof {
                    assert forall|i: int, j: int| 0 <= i < j < self.states@.len() implies (#[trigger] self.states@[i]).expression@ != (#[trigger] self.states@[j]).expression@ by {
                        if j == next {
                            assert(self.states@[j].expression@ == dv);
                            assert(old(self).state_re(i) == self.states@[i].expression@);
                        } else {
                            assert(before[i].expression@ != before[j].expression@);
                        }
                    }
                }
                next
            },
        };
        let key = copy_symbol(symbol);
        self.transitions.push(Transition { from: state, symbol: key, to: next });
        proof {
            assert forall|j: int|
                0 <= j < old(self).num_states() && #[trigger] old(self).state_re(j) == spec_derivative(old(self).state_re(state as int), symbol@)
                    implies next == j by {
                let a = self.states@[j];
                let b = self.states@[next as int];
                assert(a.expression@ == b.expression@);
            }
        }
        next
    }

    /// The state whose expression is `e`, if one exists.
    fn find_state(&self, e: &Expression) -> (r: Option<usize>)
        ensures
            r matches Some(i) ==> i < self.num_states() && self.state_re(i as int) == e@,
            r is None ==> forall|j: int| 0 <= j < self.num_states() ==> self.state_re(j) != e@,
    {
        let mut i: usize = 0;
        while i < self.states.len()
            invariant
                i <= self.states.len(),
                forall|j: int| 0 <= j < i ==> self.state_re(j) != e@,
            decreases self.states.len() - i,
        {
            if compare_exprs(&self.states[i].expression, e) == 0 {
                return Some(i);
            }
            i += 1;
        }
        None
    }

    pub fn is_match(&self, state: usize) -> (r: bool)
        requires
            self.wf(),
            state < self.num_states(),
        ensures
            r == re_nullable(self.state_re(state as int)),
    {
        self.states[state].accepting
    }

    /// Runs the DFA from the start state over `word`.
    pub fn matches(&mut self, word: &[Vec<u64>]) -> (r: bool)
        requires
            old(self).wf(),
        ensures
            final(self).wf(),
            final(self).state_re(0) == old(self).state_re(0),
            r == accepts(old(self).state_re(0), word_view(word@)),
            r == lang(old(self).state_re(0), word_view(word@)),
    {
        let ghost w = word_view(word@);
        proof {
            lemma_accepts_lang(old(self).state_re(0), w);
        }
        let mut state = self.start_state();
        let mut k: usize = 0;
        assert(w.skip(0) =~= w);
        while k < word.len()
            invariant
                self.wf(),
                w == word_view(word@),
                k <= word.len(),
                state < self.num_states(),
                self.state_re(0) == old(self).state_re(0),
                accepts(old(self).state_re(0), w) == accepts(self.state_re(state as int), w.skip(k as int)),
            decreases word.len() - k,
        {
            proof {
                lemma_skip_step(w, k as int);
            }
            state = self.transition(state, &word[k]);
            k += 1;
        }
        self.is_match(state)
    }

    /// The number of DFA states built so far.
    pub fn state_count(&self) -> (r: usize)
        ensures
            r == self.num_states(),
    {
        self.states.len()
    }

    /// The number of transitions taken so far (cached or not).
    pub fn operation_count(&self) -> (r: usize)
        ensures
            r == self.spec_operations(),
    {
        self.operations
    }

    /// Resets the transition counter.
    pub fn reset_operation_count(&mut self)
        ensures
            final(self).spec_operations() == 0,
            final(self).wf() == old(self).wf(),
            final(self).num_states() == old(self).num_states(),
            forall|i: int| 0 <= i < old(self).num_states() ==> final(self).state_re(i) == old(self).state_re(i),
    {
        self.operations = 0;
    }
}

} // verus!
