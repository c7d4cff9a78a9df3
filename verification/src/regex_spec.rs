//! Mathematical model of generalized regular expressions over bitset symbols.
//!
//! An input word is a sequence of symbols; a symbol is a sequence of 64-bit words read
//! as one bitset. [`Re`] is the model of an expression; the canonical constructors
//! (`spec_choice`, `spec_intersection`, `spec_sequence`, `spec_repeat`) say which
//! canonical form each combination takes, and `spec_derivative` is the Brzozowski
//! derivative built from them.

use vstd::prelude::*;

verus! {

/// One bitset test.
#[derive(Clone, Copy, Debug, PartialEq, Eq, Structural)]
pub enum Atom {
    Any,
    Bit(usize),
    NotBit(usize),
}

/// Model of an expression: children are sequences.
pub enum Re {
    Never,
    Epsilon,
    Universal,
    Atom(Atom),
    Choice(Seq<Re>),
    Intersection(Seq<Re>),
    Sequence(Seq<Re>),
    Repeat(Box<Re>),
}

/// Whether `bit` is set in the bitset `symbol` (missing words read as zero).
pub open spec fn bit_set(symbol: Seq<u64>, bit: int) -> bool {
    0 <= bit && bit / 64 < symbol.len() && (symbol[bit / 64] >> ((bit % 64) as u64)) & 1u64 == 1u64
}

pub open spec fn atom_matches(a: Atom, symbol: Seq<u64>) -> bool {
    match a {
        Atom::Any => true,
        Atom::Bit(b) => bit_set(symbol, b as int),
        Atom::NotBit(b) => !bit_set(symbol, b as int),
    }
}

/// Whether the expression matches the empty word.
pub open spec fn re_nullable(r: Re) -> bool
    decreases r,
{
    match r {
        Re::Never => false,
        Re::Atom(_) => false,
        Re::Epsilon => true,
        Re::Universal => true,
        Re::Repeat(_) => true,
        Re::Choice(es) => any_nullable(es),
        Re::Intersection(es) => all_nullable(es),
        Re::Sequence(es) => all_nullable(es),
    }
}

/// Some member is nullable.
pub open spec fn any_nullable(es: Seq<Re>) -> bool
    decreases es,
{
    if es.len() == 0 {
        false
    } else {
        re_nullable(es[0]) || any_nullable(es.drop_first())
    }
}

/// Every member is nullable.
pub open spec fn all_nullable(es: Seq<Re>) -> bool
    decreases es,
{
    if es.len() == 0 {
        true
    } else {
        re_nullable(es[0]) && all_nullable(es.drop_first())
    }
}

pub open spec fn re_rank(r: Re) -> int {
    match r {
        Re::Never => 0,
        Re::Epsilon => 1,
        Re::Universal => 2,
        Re::Atom(_) => 3,
        Re::Choice(_) => 4,
        Re::Intersection(_) => 5,
        Re::Sequence(_) => 6,
        Re::Repeat(_) => 7,
    }
}

pub open spec fn atom_rank(a: Atom) -> int {
    match a {
        Atom::Any => 0,
        Atom::Bit(_) => 1,
        Atom::NotBit(_) => 2,
    }
}

pub open spec fn atom_lt(a: Atom, b: Atom) -> bool {
    if atom_rank(a) != atom_rank(b) {
        atom_rank(a) < atom_rank(b)
    } else {
        match (a, b) {
            (Atom::Bit(x), Atom::Bit(y)) => x < y,
            (Atom::NotBit(x), Atom::NotBit(y)) => x < y,
            _ => false,
        }
    }
}

/// The order in which canonical choices and intersections list their members:
/// by variant, then by contents, sequences lexicographically.
pub open spec fn re_lt(a: Re, b: Re) -> bool
    decreases a,
{
    if re_rank(a) != re_rank(b) {
        re_rank(a) < re_rank(b)
    } else {
        match a {
            Re::Atom(x) => match b {
                Re::Atom(y) => atom_lt(x, y),
                _ => false,
            },
            Re::Choice(xs) => match b {
                Re::Choice(ys) => lex_lt(xs, ys),
                _ => false,
            },
            Re::Intersection(xs) => match b {
                Re::Intersection(ys) => lex_lt(xs, ys),
                _ => false,
            },
            Re::Sequence(xs) => match b {
                Re::Sequence(ys) => lex_lt(xs, ys),
                _ => false,
            },
            Re::Repeat(x) => match b {
                Re::Repeat(y) => re_lt(*x, *y),
                _ => false,
            },
            _ => false,
        }
    }
}

/// Lexicographic order on sequences of expressions.
pub open spec fn lex_lt(xs: Seq<Re>, ys: Seq<Re>) -> bool
    decreases xs,
{
    if xs.len() == 0 {
        ys.len() > 0
    } else if ys.len() == 0 {
        false
    } else if xs[0] == ys[0] {
        lex_lt(xs.drop_first(), ys.drop_first())
    } else {
        re_lt(xs[0], ys[0])
    }
}

/// Position at which `x` is inserted into `t`: after every member ordered before it.
pub open spec fn ins_pos(t: Seq<Re>, x: Re) -> int
    decreases t.len(),
{
    if t.len() == 0 {
        0
    } else if re_lt(t[0], x) {
        1 + ins_pos(t.drop_first(), x)
    } else {
        0
    }
}

pub open spec fn insert_ordered(t: Seq<Re>, x: Re) -> Seq<Re> {
    t.take(ins_pos(t, x)) + seq![x] + t.skip(ins_pos(t, x))
}

/// Insertion sort by `re_lt`.
pub open spec fn sort_res(s: Seq<Re>) -> Seq<Re>
    decreases s.len(),
{
    if s.len() == 0 {
        s
    } else {
        insert_ordered(sort_res(s.drop_last()), s.last())
    }
}

/// Removes consecutive duplicates.
pub open spec fn dedup_res(s: Seq<Re>) -> Seq<Re>
    decreases s.len(),
{
    if s.len() == 0 {
        s
    } else {
        let d = dedup_res(s.drop_last());
        if d.len() > 0 && d.last() == s.last() {
            d
        } else {
            d.push(s.last())
        }
    }
}

/// Members of a choice after dropping `Never` and splicing nested choices;
/// `None` when a member is `Universal`.
pub open spec fn choice_members(es: Seq<Re>) -> Option<Seq<Re>>
    decreases es.len(),
{
    if es.len() == 0 {
        Some(Seq::empty())
    } else {
        match choice_members(es.drop_last()) {
            None => None,
            Some(acc) => match es.last() {
                Re::Never => Some(acc),
                Re::Universal => None,
                Re::Choice(inner) => Some(acc + inner),
                e => Some(acc.push(e)),
            },
        }
    }
}

/// Members of an intersection after dropping `Universal` and splicing nested
/// intersections; `None` when a member is `Never`.
pub open spec fn intersection_members(es: Seq<Re>) -> Option<Seq<Re>>
    decreases es.len(),
{
    if es.len() == 0 {
        Some(Seq::empty())
    } else {
        match intersection_members(es.drop_last()) {
            None => None,
            Some(acc) => match es.last() {
                Re::Universal => Some(acc),
                Re::Never => None,
                Re::Intersection(inner) => Some(acc + inner),
                e => Some(acc.push(e)),
            },
        }
    }
}

/// Members of a sequence after dropping `Epsilon` and splicing nested sequences;
/// `None` when a member is `Never`.
pub open spec fn sequence_members(es: Seq<Re>) -> Option<Seq<Re>>
    decreases es.len(),
{
    if es.len() == 0 {
        Some(Seq::empty())
    } else {
        match sequence_members(es.drop_last()) {
            None => None,
            Some(acc) => match es.last() {
                Re::Epsilon => Some(acc),
                Re::Never => None,
                Re::Sequence(inner) => Some(acc + inner),
                e => Some(acc.push(e)),
            },
        }
    }
}

pub open spec fn is_universal(r: Re) -> bool {
    r is Universal
}

/// Some member is `Epsilon`.
pub open spec fn any_epsilon(es: Seq<Re>) -> bool
    decreases es.len(),
{
    if es.len() == 0 {
        false
    } else {
        es[0] is Epsilon || any_epsilon(es.drop_first())
    }
}

/// Drops every `Universal` that directly follows another `Universal`.
pub open spec fn collapse_universal(s: Seq<Re>) -> Seq<Re>
    decreases s.len(),
{
    if s.len() == 0 {
        s
    } else {
        let c = collapse_universal(s.drop_last());
        if s.len() >= 2 && is_universal(s.last()) && is_universal(s[s.len() - 2]) {
            c
        } else {
            c.push(s.last())
        }
    }
}

/// Canonical union.
pub open spec fn spec_choice(es: Seq<Re>) -> Re {
    match choice_members(es) {
        None => Re::Universal,
        Some(flat) => {
            let d = dedup_res(sort_res(flat));
            if d.len() == 0 {
                Re::Never
            } else if d.len() == 1 {
                d[0]
            } else {
                Re::Choice(d)
            }
        },
    }
}

/// Canonical intersection.
pub open spec fn spec_intersection(es: Seq<Re>) -> Re {
    match intersection_members(es) {
        None => Re::Never,
        Some(flat) => if any_epsilon(flat) {
            if all_nullable(flat) {
                Re::Epsilon
            } else {
                Re::Never
            }
        } else {
            let d = dedup_res(sort_res(flat));
            if d.len() == 0 {
                Re::Universal
            } else if d.len() == 1 {
                d[0]
            } else {
                Re::Intersection(d)
            }
        },
    }
}

/// Canonical concatenation.
pub open spec fn spec_sequence(es: Seq<Re>) -> Re {
    match sequence_members(es) {
        None => Re::Never,
        Some(flat) => {
            let c = collapse_universal(flat);
            if c.len() == 0 {
                Re::Epsilon
            } else if c.len() == 1 {
                c[0]
            } else {
                Re::Sequence(c)
            }
        },
    }
}

/// Canonical Kleene star.
pub open spec fn spec_repeat(r: Re) -> Re {
    match r {
        Re::Never => Re::Epsilon,
        Re::Epsilon => Re::Epsilon,
        Re::Universal => Re::Universal,
        Re::Atom(Atom::Any) => Re::Universal,
        Re::Repeat(_) => r,
        _ => Re::Repeat(Box::new(r)),
    }
}

/// Brzozowski derivative of `r` by one symbol, in canonical form.
pub open spec fn spec_derivative(r: Re, symbol: Seq<u64>) -> Re
    decreases r,
{
    match r {
        Re::Never => Re::Never,
        Re::Epsilon => Re::Never,
        Re::Universal => Re::Universal,
        Re::Atom(a) => if atom_matches(a, symbol) {
            Re::Epsilon
        } else {
            Re::Never
        },
        Re::Choice(es) => spec_choice(derive_each(es, symbol)),
        Re::Intersection(es) => spec_intersection(derive_each(es, symbol)),
        Re::Sequence(es) => spec_choice(sequence_alternatives(es, symbol)),
        Re::Repeat(e) => spec_sequence(seq![spec_derivative(*e, symbol), Re::Repeat(e)]),
    }
}

/// The derivative of every member.
pub open spec fn derive_each(es: Seq<Re>, symbol: Seq<u64>) -> Seq<Re>
    decreases es,
{
    if es.len() == 0 {
        Seq::empty()
    } else {
        derive_each(es.drop_last(), symbol).push(spec_derivative(es.last(), symbol))
    }
}

/// The alternatives of the derivative of a sequence: the derivative of the first member
/// followed by the rest, and, while the first member can be skipped, the same for the
/// remaining members.
pub open spec fn sequence_alternatives(es: Seq<Re>, symbol: Seq<u64>) -> Seq<Re>
    decreases es,
{
    if es.len() == 0 {
        Seq::empty()
    } else {
        let first = spec_sequence(seq![spec_derivative(es[0], symbol)] + es.drop_first());
        if re_nullable(es[0]) {
            seq![first] + sequence_alternatives(es.drop_first(), symbol)
        } else {
            seq![first]
        }
    }
}

/// Whether `r` accepts `word`: the derivative by the whole word is nullable.
pub open spec fn accepts(r: Re, word: Seq<Seq<u64>>) -> bool
    decreases word.len(),
{
    if word.len() == 0 {
        re_nullable(r)
    } else {
        accepts(spec_derivative(r, word[0]), word.drop_first())
    }
}

/// The derivative of `r` by every symbol of `word`, first to last.
pub open spec fn derive_word(r: Re, word: Seq<Seq<u64>>) -> Re
    decreases word.len(),
{
    if word.len() == 0 {
        r
    } else {
        derive_word(spec_derivative(r, word[0]), word.drop_first())
    }
}

/// Whether some word derives `r` into `target`.
pub open spec fn reachable_from(r: Re, target: Re) -> bool {
    exists|word: Seq<Seq<u64>>| #[trigger] derive_word(r, word) == target
}

/// Deriving by one more symbol at the end derives the word's derivative by it.
pub proof fn lemma_derive_word_push(r: Re, word: Seq<Seq<u64>>, symbol: Seq<u64>)
    ensures
        derive_word(r, word.push(symbol)) == spec_derivative(derive_word(r, word), symbol),
    decreases word.len(),
{
    let longer = word.push(symbol);
    assert(longer.len() > 0);
    if word.len() == 0 {
        assert(longer[0] == symbol);
        assert(longer.drop_first() =~= Seq::<Seq<u64>>::empty());
        assert(derive_word(spec_derivative(r, symbol), Seq::<Seq<u64>>::empty()) == spec_derivative(r, symbol));
        assert(derive_word(r, word) == r);
    } else {
        assert(longer[0] == word[0]);
        lemma_derive_word_push(spec_derivative(r, word[0]), word.drop_first(), symbol);
        assert(longer.drop_first() =~= word.drop_first().push(symbol));
    }
}

/// A word is accepted exactly when the derivative by it is nullable.
pub proof fn lemma_accepts_derive_word(r: Re, word: Seq<Seq<u64>>)
    ensures
        accepts(r, word) == re_nullable(derive_word(r, word)),
    decreases word.len(),
{
    if word.len() > 0 {
        lemma_accepts_derive_word(spec_derivative(r, word[0]), word.drop_first());
    }
}

/// What a word reaches, one more symbol reaches the derivative of.
pub proof fn lemma_reachable_step(r: Re, target: Re, symbol: Seq<u64>)
    requires
        reachable_from(r, target),
    ensures
        reachable_from(r, spec_derivative(target, symbol)),
{
    let word = choose|word: Seq<Seq<u64>>| #[trigger] derive_word(r, word) == target;
    lemma_derive_word_push(r, word, symbol);
    assert(derive_word(r, word.push(symbol)) == spec_derivative(target, symbol));
}

/// `re_lt` is irreflexive.
pub proof fn lemma_re_lt_irreflexive(r: Re)
    ensures
        !re_lt(r, r),
    decreases r,
{
    match r {
        Re::Choice(xs) => lemma_lex_lt_irreflexive(xs),
        Re::Intersection(xs) => lemma_lex_lt_irreflexive(xs),
        Re::Sequence(xs) => lemma_lex_lt_irreflexive(xs),
        Re::Repeat(x) => lemma_re_lt_irreflexive(*x),
        _ => {},
    }
}

pub proof fn lemma_lex_lt_irreflexive(xs: Seq<Re>)
    ensures
        !lex_lt(xs, xs),
    decreases xs,
{
    if xs.len() > 0 {
        lemma_lex_lt_irreflexive(xs.drop_first());
    }
}

} // verus!
