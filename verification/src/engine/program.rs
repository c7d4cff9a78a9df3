//! Compilation of ancestry chains into tests and bitset regular expressions.

use vstd::prelude::*;
use crate::general_regex::{GenRegExp, Pattern, pattern_views};
use crate::matcher::step::{
    count_true, steps_flags, step_flags, chains_flags, chain_valid, chains_valid, chains_view, is_gap, lemma_chains_valid_index,
    lemma_step_children, lemma_steps_valid_index, step_nested_valid,
    steps_view, Predicate, Step, StepM,
};
use crate::regex_lang::{
    all_lang, lang, lemma_any_lang, lemma_all_lang, lemma_bit_lang, lemma_seq_bit_head,
    lemma_seq_epsilon_head, lemma_seq_snoc, snoc_at,
    lemma_seq_somewhere, lemma_seq_universal_head, lemma_spec_choice, lemma_spec_intersection,
    lemma_spec_repeat, lemma_spec_sequence, lemma_star_symbols, seq_lang,
};
use super::symbol::holds_seq;
use crate::regex_spec::{bit_set, spec_choice, spec_intersection, spec_repeat, spec_sequence, Atom, Re};

verus! {

broadcast use vstd::std_specs::vec::group_vec_axioms;

/// A step compiled into indices: leaves are selector hits, the others read chain matches.
#[derive(Debug)]
pub enum Test {
    Leaf(usize),
    Chain(usize),
    Not(usize),
    Every(Vec<usize>),
    Any(Vec<usize>),
}

/// One chain compiled into tests and a bitset regular expression over them.
pub struct CompiledChain {
    pub tests: Vec<Test>,
    pub regexp: GenRegExp,
    /// The steps the chain was compiled from.
    pub steps: Ghost<Seq<StepM>>,
}

/// The selector and the predicate behind a [`Test::Leaf`].
pub struct Leaf {
    pub selector: String,
    pub predicate: Option<Box<dyn Predicate>>,
}

/// A chain forest flattened into dependency-ordered ancestry chains.
pub struct Program {
    /// Every chain is preceded by the chains it refers to.
    pub chains: Vec<CompiledChain>,
    /// The leaf selectors, in the order their filters were compiled.
    pub leaves: Vec<Leaf>,
}

/// Whether test `t` holds, given leaf hits and chain matches.
pub open spec fn test_holds(t: Test, hits: Seq<bool>, matched: Seq<bool>) -> bool {
    match t {
        Test::Leaf(l) => hits[l as int],
        Test::Chain(c) => matched[c as int],
        Test::Not(c) => !matched[c as int],
        Test::Every(cs) => forall|j: int| 0 <= j < cs@.len() ==> matched[#[trigger] cs@[j] as int],
        Test::Any(cs) => exists|j: int| 0 <= j < cs@.len() && matched[#[trigger] cs@[j] as int],
    }
}

/// Test `t` reads only leaves below `leaves` and chains below `chain`.
pub open spec fn test_refs_below(t: Test, chain: int, leaves: int) -> bool {
    match t {
        Test::Leaf(l) => l < leaves,
        Test::Chain(c) => c < chain,
        Test::Not(c) => c < chain,
        Test::Every(cs) => forall|j: int| 0 <= j < cs@.len() ==> #[trigger] cs@[j] < chain,
        Test::Any(cs) => forall|j: int| 0 <= j < cs@.len() ==> #[trigger] cs@[j] < chain,
    }
}

/// Number of tests a gap step adds.
pub open spec fn gap_tests(s: StepM) -> nat {
    match s {
        StepM::Direct => 0,
        StepM::GapWithout(_) => 1,
        StepM::GapWithEvery(cs) => cs.len(),
        StepM::GapWithAny(cs) => cs.len(),
        _ => 1,
    }
}

/// `Universal · Bit(bit) · Universal`: the bit occurs somewhere.
pub open spec fn somewhere(bit: int) -> Re {
    spec_sequence(seq![Re::Universal, Re::Atom(Atom::Bit(bit as usize)), Re::Universal])
}

/// The pattern of a gap step whose nested tests start at `bit`.
pub open spec fn gap_pattern(s: StepM, bit: int) -> Re {
    match s {
        StepM::Direct => Re::Epsilon,
        StepM::GapWithout(_) => spec_repeat(Re::Atom(Atom::NotBit(bit as usize))),
        StepM::GapWithEvery(cs) => spec_intersection(
            Seq::new(cs.len(), |j: int| somewhere(bit + j)),
        ),
        StepM::GapWithAny(cs) => spec_sequence(
            seq![
                Re::Universal,
                spec_choice(Seq::new(cs.len(), |j: int| Re::Atom(Atom::Bit((bit + j) as usize)))),
                Re::Universal,
            ],
        ),
        _ => Re::Never,
    }
}

/// The pieces of a chain's pattern: each element selector is a bit preceded by an
/// unconstrained gap unless a gap step precedes it; each gap step is its constraint.
pub open spec fn chain_pieces(steps: Seq<StepM>, bit: int, after_gap: bool) -> Seq<Re>
    decreases steps.len(),
{
    if steps.len() == 0 {
        Seq::empty()
    } else if is_gap(steps[0]) {
        seq![gap_pattern(steps[0], bit)] + chain_pieces(
            steps.drop_first(),
            bit + gap_tests(steps[0]),
            true,
        )
    } else {
        (if after_gap {
            Seq::empty()
        } else {
            seq![Re::Universal]
        }) + seq![Re::Atom(Atom::Bit(bit as usize))] + chain_pieces(steps.drop_first(), bit + 1, false)
    }
}

/// Number of tests of a chain.
pub open spec fn chain_tests(steps: Seq<StepM>) -> nat
    decreases steps.len(),
{
    if steps.len() == 0 {
        0
    } else if is_gap(steps[0]) {
        gap_tests(steps[0]) + chain_tests(steps.drop_first())
    } else {
        1 + chain_tests(steps.drop_first())
    }
}

/// The regular expression a chain compiles to, over the bits of its tests.
pub open spec fn chain_pattern(steps: Seq<StepM>) -> Re {
    spec_sequence(chain_pieces(steps, 0, false))
}

/// Chain `c` of `p` is the compilation of `steps`: its tests and its pattern.
pub open spec fn compiles(p: Program, c: int, steps: Seq<StepM>) -> bool {
    &&& 0 <= c < p.chains@.len()
    &&& p.chains@[c].steps@ == steps
    &&& p.chains@[c].tests@.len() == chain_tests(steps)
    &&& p.chains@[c].regexp.state_re(0) == chain_pattern(steps)
}

/// How many of the predicates `n` flags may take: one per `true` flag, while any are left.
pub open spec fn used(flags: Seq<bool>, n: nat) -> nat {
    if count_true(flags) < n {
        count_true(flags)
    } else {
        n
    }
}

/// Each leaf of `leaves` holds the predicate its flag asks for: a flagged leaf takes the
/// next of `preds` in order while any are left, every other leaf holds none.
pub open spec fn assigned(leaves: Seq<Leaf>, flags: Seq<bool>, preds: Seq<Box<dyn Predicate>>) -> bool {
    &&& leaves.len() == flags.len()
    &&& forall|j: int|
        0 <= j < flags.len() ==> (#[trigger] leaves[j]).predicate == if flags[j] && count_true(flags.take(j)) < preds.len() {
            Some(preds[count_true(flags.take(j)) as int])
        } else {
            None
        }
}

/// `new_leaves` is `old_leaves` followed by one leaf per flag, holding the predicates of
/// `preds` as `assigned` says.
pub open spec fn assigns(old_leaves: Seq<Leaf>, new_leaves: Seq<Leaf>, preds: Seq<Box<dyn Predicate>>, flags: Seq<bool>) -> bool {
    &&& new_leaves.len() == old_leaves.len() + flags.len()
    &&& forall|i: int| 0 <= i < old_leaves.len() ==> #[trigger] new_leaves[i] == old_leaves[i]
    &&& assigned(new_leaves.skip(old_leaves.len() as int), flags, preds)
}

/// As `assigns`, and the predicates left over are those not taken, in order.
pub open spec fn consumes(
    old_leaves: Seq<Leaf>,
    new_leaves: Seq<Leaf>,
    old_preds: Seq<Box<dyn Predicate>>,
    new_preds: Seq<Box<dyn Predicate>>,
    flags: Seq<bool>,
) -> bool {
    &&& assigns(old_leaves, new_leaves, old_preds, flags)
    &&& new_preds == old_preds.skip(used(flags, old_preds.len()) as int)
}

proof fn lemma_count_true_concat(a: Seq<bool>, b: Seq<bool>)
    ensures
        count_true(a + b) == count_true(a) + count_true(b),
    decreases b.len(),
{
    if b.len() == 0 {
        assert(a + b =~= a);
    } else {
        assert((a + b).drop_last() =~= a + b.drop_last());
        lemma_count_true_concat(a, b.drop_last());
    }
}

/// Nothing compiled, nothing taken.
proof fn lemma_consumes_none(l: Seq<Leaf>, p: Seq<Box<dyn Predicate>>)
    ensures
        consumes(l, l, p, p, Seq::empty()),
{
    assert(l.skip(l.len() as int) =~= Seq::<Leaf>::empty());
    assert(p.skip(0) =~= p);
}

/// Two compilations in a row take the predicates in order.
proof fn lemma_consumes_trans(
    l0: Seq<Leaf>,
    l1: Seq<Leaf>,
    l2: Seq<Leaf>,
    p0: Seq<Box<dyn Predicate>>,
    p1: Seq<Box<dyn Predicate>>,
    p2: Seq<Box<dyn Predicate>>,
    f1: Seq<bool>,
    f2: Seq<bool>,
)
    requires
        consumes(l0, l1, p0, p1, f1),
        consumes(l1, l2, p1, p2, f2),
    ensures
        consumes(l0, l2, p0, p2, f1 + f2),
{
    let c1 = count_true(f1);
    let n = p0.len();
    let u1 = used(f1, n);
    let a = l2.skip(l0.len() as int);
    let f = f1 + f2;
    assert forall|j: int| 0 <= j < f.len() implies (#[trigger] a[j]).predicate == if f[j] && count_true(f.take(j)) < p0.len() {
        Some(p0[count_true(f.take(j)) as int])
    } else {
        None
    } by {
        if j < f1.len() {
            assert(f.take(j) =~= f1.take(j));
            assert(a[j] == l2[l0.len() + j]);
            assert(l2[l0.len() + j] == l1[l0.len() + j]);
            assert(l1.skip(l0.len() as int)[j] == l1[l0.len() + j]);
        } else {
            let k = j - f1.len();
            assert(f.take(j) =~= f1 + f2.take(k));
            lemma_count_true_concat(f1, f2.take(k));
            assert(a[j] == l2.skip(l1.len() as int)[k]);
            assert(f[j] == f2[k]);
            if c1 < n {
                assert(p1.len() == n - c1);
                let ck = count_true(f2.take(k));
                if ck < p1.len() {
                    assert(p1[ck as int] == p0[(c1 + ck) as int]);
                }
            } else {
                assert(p1.len() == 0);
            }
        }
    }
    lemma_count_true_concat(f1, f2);
    assert(p0.skip(u1 as int).skip(used(f2, p1.len()) as int) =~= p0.skip(used(f, n) as int));
}

/// Chain `c` of `p` exists and was compiled from `steps`.
pub open spec fn chain_of(p: Program, c: int, steps: Seq<StepM>) -> bool {
    0 <= c < p.chains@.len() && p.chains@[c].steps@ == steps
}

/// The test `t` stands for the element step `s`: a filter reads the hit of a leaf with
/// its selector; `not`, `every` and `any` read the matches of the chains compiled from
/// their nested chains.
pub open spec fn step_test_ok(p: Program, t: Test, s: StepM) -> bool {
    match s {
        StepM::Filter(css, _) => {
            &&& t matches Test::Leaf(l) && l < p.leaves@.len() && p.leaves@[l as int].selector@ == css
        },
        StepM::Not(n) => {
            &&& t matches Test::Not(c) && chain_of(p, c as int, n)
        },
        StepM::Every(cs) => {
            &&& t matches Test::Every(ids) && ids@.len() == cs.len() && forall|j: int|
                0 <= j < ids@.len() ==> chain_of(p, #[trigger] ids@[j] as int, cs[j])
        },
        StepM::Any(cs) => {
            &&& t matches Test::Any(ids) && ids@.len() == cs.len() && forall|j: int|
                0 <= j < ids@.len() ==> chain_of(p, #[trigger] ids@[j] as int, cs[j])
        },
        _ => false,
    }
}

/// The test `t` reads the match of the chain compiled from `steps`.
pub open spec fn chained(p: Program, t: Test, steps: Seq<StepM>) -> bool {
    &&& t matches Test::Chain(c) && chain_of(p, c as int, steps)
}

/// The tests `ts` stand for the gap step `s`: one per nested chain, each reading the
/// match of the chain compiled from it (none for `direct()`).
pub open spec fn gap_tests_ok(p: Program, ts: Seq<Test>, s: StepM) -> bool {
    match s {
        StepM::Direct => ts.len() == 0,
        StepM::GapWithout(n) => {
            &&& ts.len() == 1
            &&& ts[0] matches Test::Chain(c) && chain_of(p, c as int, n)
        },
        StepM::GapWithEvery(cs) => {
            &&& ts.len() == cs.len()
            &&& forall|j: int| 0 <= j < ts.len() ==> chained(p, #[trigger] ts[j], cs[j])
        },
        StepM::GapWithAny(cs) => {
            &&& ts.len() == cs.len()
            &&& forall|j: int| 0 <= j < ts.len() ==> chained(p, #[trigger] ts[j], cs[j])
        },
        _ => false,
    }
}

/// The first bit of step `j` of `steps`.
pub open spec fn step_bit(steps: Seq<StepM>, j: int) -> int {
    chain_tests(steps) - chain_tests(steps.skip(j))
}

/// The tests of step `j` of `steps` are the right ones, from its first bit on.
pub open spec fn step_tests_ok(p: Program, tests: Seq<Test>, steps: Seq<StepM>, j: int) -> bool {
    let b = step_bit(steps, j);
    if is_gap(steps[j]) {
        &&& 0 <= b
        &&& b + gap_tests(steps[j]) <= tests.len()
        &&& gap_tests_ok(p, tests.subrange(b, b + gap_tests(steps[j])), steps[j])
    } else {
        &&& 0 <= b < tests.len()
        &&& step_test_ok(p, tests[b], steps[j])
    }
}

/// The tests of a chain follow its steps: each element step has its test and each gap
/// step its tests, in step order.
pub open spec fn tests_follow(p: Program, tests: Seq<Test>, steps: Seq<StepM>) -> bool {
    &&& tests.len() == chain_tests(steps)
    &&& forall|j: int| 0 <= j < steps.len() ==> #[trigger] step_tests_ok(p, tests, steps, j)
}

/// A later program keeps what an element step's test stands for.
proof fn lemma_step_test_extends(p1: Program, p2: Program, t: Test, s: StepM)
    requires
        p2.extends(&p1),
        step_test_ok(p1, t, s),
    ensures
        step_test_ok(p2, t, s),
{
    match s {
        StepM::Filter(css, _) => {
            let l = t->Leaf_0 as int;
            assert(p2.leaves@[l].selector@ == p1.leaves@[l].selector@);
        },
        StepM::Not(n) => {
            let c = t->Not_0 as int;
            assert(p2.chains@[c] == p1.chains@[c]);
        },
        StepM::Every(cs) => {
            let ids = t->Every_0;
            assert forall|j: int| 0 <= j < ids@.len() implies chain_of(p2, #[trigger] ids@[j] as int, cs[j]) by {
                assert(chain_of(p1, ids@[j] as int, cs[j]));
                assert(p2.chains@[ids@[j] as int] == p1.chains@[ids@[j] as int]);
            }
        },
        StepM::Any(cs) => {
            let ids = t->Any_0;
            assert forall|j: int| 0 <= j < ids@.len() implies chain_of(p2, #[trigger] ids@[j] as int, cs[j]) by {
                assert(chain_of(p1, ids@[j] as int, cs[j]));
                assert(p2.chains@[ids@[j] as int] == p1.chains@[ids@[j] as int]);
            }
        },
        _ => {},
    }
}

/// A later program keeps what a gap step's tests stand for.
proof fn lemma_gap_tests_extends(p1: Program, p2: Program, ts: Seq<Test>, s: StepM)
    requires
        p2.extends(&p1),
        gap_tests_ok(p1, ts, s),
    ensures
        gap_tests_ok(p2, ts, s),
{
    match s {
        StepM::GapWithout(n) => {
            let c = ts[0]->Chain_0 as int;
            assert(p2.chains@[c] == p1.chains@[c]);
        },
        StepM::GapWithEvery(cs) => {
            assert forall|j: int| 0 <= j < ts.len() implies chained(p2, #[trigger] ts[j], cs[j]) by {
                assert(chained(p1, ts[j], cs[j]));
                let c = ts[j]->Chain_0 as int;
                assert(p2.chains@[c] == p1.chains@[c]);
            }
        },
        StepM::GapWithAny(cs) => {
            assert forall|j: int| 0 <= j < ts.len() implies chained(p2, #[trigger] ts[j], cs[j]) by {
                assert(chained(p1, ts[j], cs[j]));
                let c = ts[j]->Chain_0 as int;
                assert(p2.chains@[c] == p1.chains@[c]);
            }
        },
        _ => {},
    }
}

/// A later program keeps what a chain's tests stand for.
proof fn lemma_tests_follow_extends(p1: Program, p2: Program, tests: Seq<Test>, steps: Seq<StepM>)
    requires
        p2.extends(&p1),
        tests_follow(p1, tests, steps),
    ensures
        tests_follow(p2, tests, steps),
{
    assert forall|j: int| 0 <= j < steps.len() implies #[trigger] step_tests_ok(p2, tests, steps, j) by {
        assert(step_tests_ok(p1, tests, steps, j));
        let b = step_bit(steps, j);
        if is_gap(steps[j]) {
            lemma_gap_tests_extends(p1, p2, tests.subrange(b, b + gap_tests(steps[j])), steps[j]);
        } else {
            lemma_step_test_extends(p1, p2, tests[b], steps[j]);
        }
    }
}

impl Test {
    /// Whether the test holds for the element being handled.
    #[verifier::loop_isolation(false)]
    pub fn holds(&self, hits: &Vec<bool>, matched: &Vec<bool>) -> (r: bool)
        requires
            test_refs_below(*self, matched@.len() as int, hits@.len() as int),
        ensures
            r == test_holds(*self, hits@, matched@),
    {
        match self {
            Test::Leaf(leaf) => hits[*leaf],
            Test::Chain(chain) => matched[*chain],
            Test::Not(chain) => !matched[*chain],
            Test::Every(chains) => {
                let mut j: usize = 0;
                while j < chains.len()
                    invariant
                        j <= chains@.len(),
                        forall|k: int| 0 <= k < chains@.len() ==> #[trigger] chains@[k] < matched@.len(),
                        forall|k: int| 0 <= k < j ==> matched@[#[trigger] chains@[k] as int],
                    decreases chains.len() - j,
                {
                    if !matched[chains[j]] {
                        assert(!matched@[chains@[j as int] as int]);
                        return false;
                    }
                    j += 1;
                }
                true
            },
            Test::Any(chains) => {
                let mut j: usize = 0;
                while j < chains.len()
                    invariant
                        j <= chains@.len(),
                        forall|k: int| 0 <= k < chains@.len() ==> #[trigger] chains@[k] < matched@.len(),
                        forall|k: int| 0 <= k < j ==> !matched@[#[trigger] chains@[k] as int],
                    decreases chains.len() - j,
                {
                    if matched[chains[j]] {
                        assert(matched@[chains@[j as int] as int]);
                        return true;
                    }
                    j += 1;
                }
                false
            },
        }
    }
}

impl Program {
    /// Every chain's DFA is well formed and every test reads earlier chains and known leaves.
    pub open spec fn wf(&self) -> bool {
        forall|i: int|
            0 <= i < self.chains@.len() ==> {
                &&& (#[trigger] self.chains@[i]).regexp.wf()
                &&& forall|k: int|
                    0 <= k < self.chains@[i].tests@.len() ==> test_refs_below(
                        #[trigger] self.chains@[i].tests@[k],
                        i,
                        self.leaves@.len() as int,
                    )
                &&& tests_follow(*self, self.chains@[i].tests@, self.chains@[i].steps@)
            }
    }

    /// The old chains are untouched and the old leaves kept.
    pub open spec fn extends(&self, old: &Program) -> bool {
        &&& self.chains@.len() >= old.chains@.len()
        &&& self.leaves@.len() >= old.leaves@.len()
        &&& forall|i: int| 0 <= i < old.chains@.len() ==> #[trigger] self.chains@[i] == old.chains@[i]
        &&& forall|i: int| 0 <= i < old.leaves@.len() ==> #[trigger] self.leaves@[i] == old.leaves@[i]
    }

    pub fn new() -> (r: Program)
        ensures
            r.wf(),
            r.chains@.len() == 0,
            r.leaves@.len() == 0,
    {
        Program { chains: Vec::new(), leaves: Vec::new() }
    }

    /// Compiles `steps` into a chain and returns its index; nested chains are compiled
    /// first, so the new chain comes last.
    pub fn add(&mut self, steps: Vec<Step>, predicates: &mut Vec<Box<dyn Predicate>>) -> (r: usize)
        requires
            old(self).wf(),
            chain_valid(steps_view(steps@)),
        ensures
            final(self).wf(),
            final(self).extends(old(self)),
            r == final(self).chains@.len() - 1,
            r >= old(self).chains@.len(),
            final(self).chains@[r as int].tests@.len() == chain_tests(steps_view(steps@)),
            final(self).chains@[r as int].regexp.num_states() == 1,
            final(self).chains@[r as int].regexp.state_re(0) == chain_pattern(steps_view(steps@)),
            final(self).chains@[r as int].steps@ == steps_view(steps@),
            final(self).chains@[r as int].regexp.spec_operations() == 0,
            consumes(old(self).leaves@, final(self).leaves@, old(predicates)@, final(predicates)@, steps_flags(steps_view(steps@))),
        decreases steps@, 0int,
    {
        let ghost all = steps_view(steps@);
        let mut remaining = steps;
        let mut tests: Vec<Test> = Vec::new();
        let mut patterns: Vec<Pattern> = Vec::new();
        let mut has_gap = false;
        let ghost mut done: int = 0;
        let ghost mut taken: Seq<bool> = Seq::empty();
        assert(all.skip(0) =~= all);
        assert(pattern_views(patterns@) =~= Seq::<Re>::empty());
        assert(taken + steps_flags(all) =~= steps_flags(all));
        proof {
            lemma_consumes_none(self.leaves@, predicates@);
        }
        while remaining.len() > 0
            invariant
                0 <= done <= all.len(),
                steps_view(remaining@) =~= all.skip(done),
                forall|j: int| 0 <= j < remaining@.len() ==> #[trigger] remaining@[j] == steps@[done + j],
                steps@.len() == all.len(),
                all == steps_view(steps@),
                chain_valid(all),
                self.wf(),
                self.extends(old(self)),
                forall|k: int| 0 <= k < tests@.len() ==> test_refs_below(#[trigger] tests@[k], self.chains@.len() as int, self.leaves@.len() as int),
                pattern_views(patterns@) + chain_pieces(all.skip(done), tests@.len() as int, has_gap)
                    == chain_pieces(all, 0, false),
                tests@.len() + chain_tests(all.skip(done)) == chain_tests(all),
                tests@.len() <= chain_tests(all),
                forall|j: int| 0 <= j < done ==> #[trigger] step_tests_ok(*self, tests@, all, j),
                consumes(old(self).leaves@, self.leaves@, old(predicates)@, predicates@, taken),
                taken + steps_flags(all.skip(done)) == steps_flags(all),
            decreases remaining.len(),
        {
            let step = remaining.remove(0);
            proof {
                assert(step == steps@[done]);
                assert(steps_view(steps@)[done] == step@);
                lemma_steps_valid_index(all, done);
                assert(all.skip(done)[0] == step@);
                assert(all.skip(done).drop_first() =~= all.skip(done + 1));
                assert(decreases_to!(steps@ => steps@[done]));
            }
            let ghost before_tests = tests@.len();
            let ghost before_patterns = pattern_views(patterns@);
            let ghost prog_before = *self;
            let ghost tests_before = tests@;
            let ghost preds_before = predicates@;
            proof {
                assert(step_bit(all, done) == before_tests);
                assert(chain_tests(all.skip(done)) == (if is_gap(step@) { gap_tests(step@) } else { 1 }) + chain_tests(all.skip(done + 1)));
            }
            if step.is_gap() {
                let pattern = self.compile_gap(step, &mut tests, predicates);
                patterns.push(pattern);
                assert(pattern_views(patterns@) =~= before_patterns.push(pattern@));
                has_gap = true;
            } else {
                let ghost after_gap = has_gap;
                if !has_gap {
                    let u = Pattern::universal();
                    patterns.push(u);
                }
                let test = self.compile(step, predicates);
                let bit = tests.len();
                tests.push(test);
                let b = Pattern::bit(bit);
                let ghost mid = pattern_views(patterns@);
                patterns.push(b);
                proof {
                    assert(pattern_views(patterns@) =~= mid.push(b@));
                    if !after_gap {
                        assert(mid =~= before_patterns.push(Re::Universal));
                    } else {
                        assert(mid =~= before_patterns);
                    }
                }
                has_gap = false;
            }
            proof {
                lemma_consumes_trans(old(self).leaves@, prog_before.leaves@, self.leaves@, old(predicates)@, preds_before, predicates@, taken, step_flags(step@));
                assert(steps_flags(all.skip(done)) == step_flags(step@) + steps_flags(all.skip(done + 1)));
                assert(taken + step_flags(step@) + steps_flags(all.skip(done + 1)) =~= taken + (step_flags(step@) + steps_flags(all.skip(done + 1))));
                taken = taken + step_flags(step@);
                assert(tests@.take(before_tests as int) =~= tests_before);
                assert forall|j: int| 0 <= j < done + 1 implies #[trigger] step_tests_ok(*self, tests@, all, j) by {
                    let b = step_bit(all, j);
                    if j < done {
                        assert(step_tests_ok(prog_before, tests_before, all, j));
                        if is_gap(all[j]) {
                            let e = b + gap_tests(all[j]);
                            assert(e <= before_tests);
                            assert forall|q: int| 0 <= q < e implies tests@[q] == tests_before[q] by {
                                assert(tests@.take(before_tests as int)[q] == tests@[q]);
                            }
                            assert(tests@.subrange(b, e) =~= tests_before.subrange(b, e));
                            lemma_gap_tests_extends(prog_before, *self, tests_before.subrange(b, e), all[j]);
                        } else {
                            assert(b < before_tests);
                            assert(tests@.take(before_tests as int)[b] == tests@[b]);
                            assert(tests@[b] == tests_before[b]);
                            lemma_step_test_extends(prog_before, *self, tests_before[b], all[j]);
                        }
                    } else {
                        assert(all[j] == step@);
                        if is_gap(step@) {
                            assert(tests@.subrange(b, b + gap_tests(step@)) =~= tests@.skip(before_tests as int));
                        }
                    }
                }
                done = done + 1;
            }
        }
        assert(all.skip(done) =~= Seq::<StepM>::empty());
        assert(taken =~= steps_flags(all));
        let ghost prog_last = *self;
        let expression = Pattern::sequence(patterns);
        self.chains.push(CompiledChain { tests, regexp: GenRegExp::new(expression), steps: Ghost(all) });
        proof {
            assert(self.extends(&prog_last));
            assert forall|i: int| 0 <= i < self.chains@.len() implies tests_follow(*self, (#[trigger] self.chains@[i]).tests@, self.chains@[i].steps@) by {
                if i < prog_last.chains@.len() {
                    assert(tests_follow(prog_last, prog_last.chains@[i].tests@, prog_last.chains@[i].steps@));
                    lemma_tests_follow_extends(prog_last, *self, self.chains@[i].tests@, self.chains@[i].steps@);
                } else {
                    assert forall|j: int| 0 <= j < all.len() implies #[trigger] step_tests_ok(*self, self.chains@[i].tests@, all, j) by {
                        assert(step_tests_ok(prog_last, self.chains@[i].tests@, all, j));
                        let b = step_bit(all, j);
                        if is_gap(all[j]) {
                            lemma_gap_tests_extends(prog_last, *self, self.chains@[i].tests@.subrange(b, b + gap_tests(all[j])), all[j]);
                        } else {
                            lemma_step_test_extends(prog_last, *self, self.chains@[i].tests@[b], all[j]);
                        }
                    }
                }
            }
        }
        self.chains.len() - 1
    }

    /// Compiles an element step into its test.
    fn compile(&mut self, step: Step, predicates: &mut Vec<Box<dyn Predicate>>) -> (r: Test)
        requires
            old(self).wf(),
            !is_gap(step@),
            step_nested_valid(step@),
        ensures
            final(self).wf(),
            final(self).extends(old(self)),
            test_refs_below(r, final(self).chains@.len() as int, final(self).leaves@.len() as int),
            step@ matches StepM::Filter(selector, has_predicate) ==> {
                let n = old(self).leaves@.len();
                let takes = has_predicate && old(predicates)@.len() > 0;
                &&& r == Test::Leaf(n as usize)
                &&& final(self).chains@ == old(self).chains@
                &&& final(self).leaves@.len() == n + 1
                &&& final(self).leaves@[n as int].selector@ == selector
                &&& final(self).leaves@[n as int].predicate == if takes {
                    Some(old(predicates)@[0])
                } else {
                    None
                }
                &&& final(predicates)@ == if takes {
                    old(predicates)@.drop_first()
                } else {
                    old(predicates)@
                }
            },
            step@ matches StepM::Not(steps) ==> {
                let c = final(self).chains@.len() - 1;
                &&& r == Test::Not(c as usize)
                &&& c >= old(self).chains@.len()
                &&& compiles(*final(self), c, steps)
            },
            step@ matches StepM::Every(chains) ==> (r matches Test::Every(ids) && ids@.len() == chains.len() && forall|j: int|
                0 <= j < ids@.len() ==> compiles(*final(self), #[trigger] ids@[j] as int, chains[j])),
            step@ matches StepM::Any(chains) ==> (r matches Test::Any(ids) && ids@.len() == chains.len() && forall|j: int|
                0 <= j < ids@.len() ==> compiles(*final(self), #[trigger] ids@[j] as int, chains[j])),
            step_test_ok(*final(self), r, step@),
            consumes(old(self).leaves@, final(self).leaves@, old(predicates)@, final(predicates)@, step_flags(step@)),
        decreases step, 0int,
    {
        proof {
            lemma_step_children(step);
        }
        match step {
            Step::Filter(selector, has_predicate) => {
                let ghost p0 = predicates@;
                let predicate = if has_predicate && predicates.len() > 0 {
                    Some(predicates.remove(0))
                } else {
                    None
                };
                let ghost before = *self;
                self.leaves.push(Leaf { selector, predicate });
                proof {
                    let f = seq![has_predicate];
                    assert(f.drop_last() =~= Seq::<bool>::empty());
                    assert(f.take(0) =~= Seq::<bool>::empty());
                    assert(count_true(Seq::<bool>::empty()) == 0);
                    assert(count_true(f) == count_true(f.drop_last()) + if f.last() { 1nat } else { 0nat });
                    assert(count_true(f) == if has_predicate { 1nat } else { 0nat });
                    assert(self.leaves@.skip(before.leaves@.len() as int) =~= seq![self.leaves@[before.leaves@.len() as int]]);
                    if has_predicate && p0.len() > 0 {
                        assert(predicates@ =~= p0.skip(1));
                    } else {
                        assert(p0.skip(0) =~= p0);
                    }
                    assert(step_flags(step@) == f);
                    assert forall|i: int| 0 <= i < self.chains@.len() implies tests_follow(*self, (#[trigger] self.chains@[i]).tests@, self.chains@[i].steps@) by {
                        assert(tests_follow(before, before.chains@[i].tests@, before.chains@[i].steps@));
                        lemma_tests_follow_extends(before, *self, self.chains@[i].tests@, self.chains@[i].steps@);
                    }
                }
                Test::Leaf(self.leaves.len() - 1)
            },
            Step::Not(steps) => {
                let c = self.add(steps, predicates);
                Test::Not(c)
            },
            Step::Every(chains) => Test::Every(self.add_all(chains, predicates)),
            Step::Any(chains) => Test::Any(self.add_all(chains, predicates)),
            _ => {
                assert(false);
                Test::Leaf(0)
            },
        }
    }

    /// Compiles every chain of `chains`, returning their indices.
    fn add_all(&mut self, chains: Vec<Vec<Step>>, predicates: &mut Vec<Box<dyn Predicate>>) -> (r: Vec<usize>)
        requires
            old(self).wf(),
            chains_valid(chains_view(chains@)),
        ensures
            final(self).wf(),
            final(self).extends(old(self)),
            r@.len() == chains@.len(),
            forall|j: int| 0 <= j < r@.len() ==> #[trigger] r@[j] < final(self).chains@.len(),
            forall|j: int| 0 <= j < r@.len() ==> compiles(*final(self), #[trigger] r@[j] as int, chains_view(chains@)[j]),
            consumes(old(self).leaves@, final(self).leaves@, old(predicates)@, final(predicates)@, chains_flags(chains_view(chains@))),
        decreases chains@, 0int,
    {
        let ghost cv = chains_view(chains@);
        let mut remaining = chains;
        let mut ids: Vec<usize> = Vec::new();
        let ghost mut done: int = 0;
        let ghost mut taken: Seq<bool> = Seq::empty();
        proof {
            lemma_consumes_none(self.leaves@, predicates@);
            assert(cv.skip(0) =~= cv);
            assert(taken + chains_flags(cv) =~= chains_flags(cv));
        }
        while remaining.len() > 0
            invariant
                0 <= done <= chains@.len(),
                done + remaining@.len() == chains@.len(),
                forall|j: int| 0 <= j < remaining@.len() ==> #[trigger] remaining@[j] == chains@[done + j],
                cv == chains_view(chains@),
                chains_valid(cv),
                ids@.len() == done,
                forall|j: int| 0 <= j < ids@.len() ==> #[trigger] ids@[j] < self.chains@.len(),
                forall|j: int| 0 <= j < ids@.len() ==> compiles(*self, #[trigger] ids@[j] as int, cv[j]),
                self.wf(),
                self.extends(old(self)),
                consumes(old(self).leaves@, self.leaves@, old(predicates)@, predicates@, taken),
                taken + chains_flags(cv.skip(done)) == chains_flags(cv),
            decreases remaining.len(),
        {
            let c = remaining.remove(0);
            proof {
                assert(c == chains@[done]);
                lemma_chains_valid_index(cv, done);
                assert(cv[done] == steps_view(c@));
                assert(decreases_to!(chains@ => chains@[done]));
                assert(decreases_to!(chains@[done] => chains@[done]@));
            }
            let ghost leaves_before = self.leaves@;
            let ghost preds_before = predicates@;
            let id = self.add(c, predicates);
            ids.push(id);
            proof {
                lemma_consumes_trans(old(self).leaves@, leaves_before, self.leaves@, old(predicates)@, preds_before, predicates@, taken, steps_flags(cv[done]));
                assert(cv.skip(done)[0] == cv[done]);
                assert(cv.skip(done).drop_first() =~= cv.skip(done + 1));
                assert(chains_flags(cv.skip(done)) == steps_flags(cv[done]) + chains_flags(cv.skip(done + 1)));
                assert(taken + steps_flags(cv[done]) + chains_flags(cv.skip(done + 1)) =~= taken + (steps_flags(cv[done]) + chains_flags(cv.skip(done + 1))));
                taken = taken + steps_flags(cv[done]);
                done = done + 1;
            }
        }
        assert(cv.skip(done) =~= Seq::<Seq<StepM>>::empty());
        assert(taken =~= chains_flags(cv));
        ids
    }

    /// Compiles a gap step: its nested chains become tests of the enclosing chain, and
    /// the returned pattern constrains the gap.
    fn compile_gap(&mut self, step: Step, tests: &mut Vec<Test>, predicates: &mut Vec<Box<dyn Predicate>>) -> (r: Pattern)
        requires
            old(self).wf(),
            is_gap(step@),
            step_nested_valid(step@),
            forall|k: int| 0 <= k < old(tests)@.len() ==> test_refs_below(#[trigger] old(tests)@[k], old(self).chains@.len() as int, old(self).leaves@.len() as int),
        ensures
            final(self).wf(),
            final(self).extends(old(self)),
            final(tests)@.len() == old(tests)@.len() + gap_tests(step@),
            forall|k: int| 0 <= k < final(tests)@.len() ==> test_refs_below(#[trigger] final(tests)@[k], final(self).chains@.len() as int, final(self).leaves@.len() as int),
            r@ == gap_pattern(step@, old(tests)@.len() as int),
            final(tests)@.take(old(tests)@.len() as int) == old(tests)@,
            gap_tests_ok(*final(self), final(tests)@.skip(old(tests)@.len() as int), step@),
            consumes(old(self).leaves@, final(self).leaves@, old(predicates)@, final(predicates)@, step_flags(step@)),
        decreases step, 0int,
    {
        proof {
            lemma_step_children(step);
        }
        match step {
            Step::GapWithout(steps) => {
                let ghost start = tests@.len() as int;
                let bit = self.add_nested_test(steps, tests, predicates);
                assert(tests@.skip(start) =~= seq![tests@[start]]);
                Pattern::not_bit(bit).repeat()
            },
            Step::GapWithEvery(chains) => {
                let ghost start = tests@.len() as int;
                let ghost orig = tests@;
                let ghost fl = chains_flags(chains_view(chains@));
                let ids = self.add_all(chains, predicates);
                let mut requirements: Vec<Pattern> = Vec::new();
                let mut j: usize = 0;
                while j < ids.len()
                    invariant
                        j <= ids@.len(),
                        tests@.len() == start + j,
                        forall|k: int| 0 <= k < ids@.len() ==> #[trigger] ids@[k] < self.chains@.len(),
                        forall|k: int| 0 <= k < tests@.len() ==> test_refs_below(#[trigger] tests@[k], self.chains@.len() as int, self.leaves@.len() as int),
                        pattern_views(requirements@) =~= Seq::new(j as nat, |k: int| somewhere(start + k)),
                        consumes(old(self).leaves@, self.leaves@, old(predicates)@, predicates@, fl),
                        start == orig.len(),
                        tests@.take(start) == orig,
                        forall|k: int| 0 <= k < j ==> #[trigger] tests@[start + k] == Test::Chain(ids@[k]),
                    decreases ids.len() - j,
                {
                    let bit = tests.len();
                    let ghost tprev = tests@;
                    tests.push(Test::Chain(ids[j]));
                    assert(tests@.take(start) =~= tprev.take(start));
                    let u1 = Pattern::universal();
                    let b = Pattern::bit(bit);
                    let u2 = Pattern::universal();
                    let parts = vec![u1, b, u2];
                    assert(pattern_views(parts@) =~= seq![Re::Universal, Re::Atom(Atom::Bit(bit)), Re::Universal]);
                    let piece = Pattern::sequence(parts);
                    let ghost before = pattern_views(requirements@);
                    requirements.push(piece);
                    assert(pattern_views(requirements@) =~= before.push(piece@));
                    j += 1;
                }
                proof {
                    let ts = tests@.skip(start);
                    assert forall|k: int| 0 <= k < ts.len() implies chained(*self, #[trigger] ts[k], chains_view(chains@)[k]) by {
                        assert(ts[k] == tests@[start + k]);
                        assert(compiles(*self, ids@[k] as int, chains_view(chains@)[k]));
                    }
                }
                Pattern::intersection(requirements)
            },
            Step::GapWithAny(chains) => {
                let ghost start = tests@.len() as int;
                let ghost orig = tests@;
                let ghost fl = chains_flags(chains_view(chains@));
                let ids = self.add_all(chains, predicates);
                let mut alternatives: Vec<Pattern> = Vec::new();
                let mut j: usize = 0;
                while j < ids.len()
                    invariant
                        j <= ids@.len(),
                        tests@.len() == start + j,
                        forall|k: int| 0 <= k < ids@.len() ==> #[trigger] ids@[k] < self.chains@.len(),
                        forall|k: int| 0 <= k < tests@.len() ==> test_refs_below(#[trigger] tests@[k], self.chains@.len() as int, self.leaves@.len() as int),
                        pattern_views(alternatives@) =~= Seq::new(j as nat, |k: int| Re::Atom(Atom::Bit((start + k) as usize))),
                        consumes(old(self).leaves@, self.leaves@, old(predicates)@, predicates@, fl),
                        start == orig.len(),
                        tests@.take(start) == orig,
                        forall|k: int| 0 <= k < j ==> #[trigger] tests@[start + k] == Test::Chain(ids@[k]),
                    decreases ids.len() - j,
                {
                    let bit = tests.len();
                    let ghost tprev = tests@;
                    tests.push(Test::Chain(ids[j]));
                    assert(tests@.take(start) =~= tprev.take(start));
                    let b = Pattern::bit(bit);
                    let ghost before = pattern_views(alternatives@);
                    alternatives.push(b);
                    assert(pattern_views(alternatives@) =~= before.push(b@));
                    j += 1;
                }
                proof {
                    let ts = tests@.skip(start);
                    assert forall|k: int| 0 <= k < ts.len() implies chained(*self, #[trigger] ts[k], chains_view(chains@)[k]) by {
                        assert(ts[k] == tests@[start + k]);
                        assert(compiles(*self, ids@[k] as int, chains_view(chains@)[k]));
                    }
                }
                let choice = Pattern::choice(alternatives);
                let parts = vec![Pattern::universal(), choice, Pattern::universal()];
                assert(pattern_views(parts@) =~= seq![Re::Universal, choice@, Re::Universal]);
                Pattern::sequence(parts)
            },
            _ => {
                proof {
                    lemma_consumes_none(self.leaves@, predicates@);
                }
                Pattern::epsilon()
            },
        }
    }

    /// Compiles a nested chain and appends a test reading its match; returns the test's bit.
    fn add_nested_test(&mut self, steps: Vec<Step>, tests: &mut Vec<Test>, predicates: &mut Vec<Box<dyn Predicate>>) -> (r: usize)
        requires
            old(self).wf(),
            chain_valid(steps_view(steps@)),
            forall|k: int| 0 <= k < old(tests)@.len() ==> test_refs_below(#[trigger] old(tests)@[k], old(self).chains@.len() as int, old(self).leaves@.len() as int),
        ensures
            final(self).wf(),
            final(self).extends(old(self)),
            r == old(tests)@.len(),
            final(tests)@.len() == old(tests)@.len() + 1,
            forall|k: int| 0 <= k < final(tests)@.len() ==> test_refs_below(#[trigger] final(tests)@[k], final(self).chains@.len() as int, final(self).leaves@.len() as int),
            final(tests)@.take(old(tests)@.len() as int) == old(tests)@,
            chained(*final(self), final(tests)@[old(tests)@.len() as int], steps_view(steps@)),
            consumes(old(self).leaves@, final(self).leaves@, old(predicates)@, final(predicates)@, steps_flags(steps_view(steps@))),
        decreases steps@, 1int,
    {
        let c = self.add(steps, predicates);
        let ghost before = tests@;
        tests.push(Test::Chain(c));
        assert(tests@.take(before.len() as int) =~= before);
        tests.len() - 1
    }
}

/// The nested chain of gap step `s` that its `k`-th test reads.
pub open spec fn gap_nested(s: StepM, k: int) -> Seq<StepM> {
    match s {
        StepM::GapWithout(n) => n,
        StepM::GapWithEvery(cs) => cs[k],
        StepM::GapWithAny(cs) => cs[k],
        _ => Seq::empty(),
    }
}

/// Bit `b + k` holds exactly when the chain compiled from the `k`-th nested chain of gap
/// step `s` matches.
pub open spec fn gap_bit_reads(p: Program, tests: Seq<Test>, hits: Seq<bool>, matched: Seq<bool>, b: int, s: StepM, k: int) -> bool {
    exists|d: int| #[trigger] chain_of(p, d, gap_nested(s, k)) && holds_seq(tests, hits, matched)[b + k] == matched[d]
}

/// What an element step's bit stands for in a compiled chain: a selector's bit holds
/// exactly when a leaf carrying that selector hits; `not`'s when the chain compiled from
/// its nested chain does not match; `every`'s when all the chains compiled from its
/// nested chains match; `any`'s when one of them does.
pub proof fn law_element_step_bit(p: Program, c: int, j: int, hits: Seq<bool>, matched: Seq<bool>)
    requires
        p.wf(),
        0 <= c < p.chains@.len(),
        0 <= j < p.chains@[c].steps@.len(),
        !is_gap(p.chains@[c].steps@[j]),
    ensures
        ({
            let steps = p.chains@[c].steps@;
            let tests = p.chains@[c].tests@;
            let b = step_bit(steps, j);
            &&& 0 <= b < tests.len()
            &&& match steps[j] {
                StepM::Filter(css, _) => exists|l: int|
                    0 <= l < p.leaves@.len() && #[trigger] p.leaves@[l].selector@ == css && holds_seq(tests, hits, matched)[b] == hits[l],
                StepM::Not(n) => exists|d: int| #[trigger] chain_of(p, d, n) && holds_seq(tests, hits, matched)[b] == !matched[d],
                StepM::Every(cs) => exists|ids: Seq<usize>|
                    #[trigger] ids.len() == cs.len() && (forall|k: int| 0 <= k < ids.len() ==> chain_of(p, #[trigger] ids[k] as int, cs[k]))
                        && holds_seq(tests, hits, matched)[b] == (forall|k: int| 0 <= k < ids.len() ==> matched[#[trigger] ids[k] as int]),
                StepM::Any(cs) => exists|ids: Seq<usize>|
                    #[trigger] ids.len() == cs.len() && (forall|k: int| 0 <= k < ids.len() ==> chain_of(p, #[trigger] ids[k] as int, cs[k]))
                        && holds_seq(tests, hits, matched)[b] == (exists|k: int| 0 <= k < ids.len() && matched[#[trigger] ids[k] as int]),
                _ => true,
            }
        }),
{
    let steps = p.chains@[c].steps@;
    let tests = p.chains@[c].tests@;
    let b = step_bit(steps, j);
    assert(tests_follow(p, tests, steps));
    assert(step_tests_ok(p, tests, steps, j));
    let t = tests[b];
    match steps[j] {
        StepM::Filter(css, _) => {
            let l = t->Leaf_0 as int;
            assert(p.leaves@[l].selector@ == css);
        },
        StepM::Not(n) => {
            let d = t->Not_0 as int;
            assert(chain_of(p, d, n));
        },
        StepM::Every(cs) => {
            let ids = t->Every_0@;
            assert(ids.len() == cs.len());
        },
        StepM::Any(cs) => {
            let ids = t->Any_0@;
            assert(ids.len() == cs.len());
        },
        _ => {},
    }
}

/// What a gap step's bits stand for in a compiled chain: its `k`-th bit holds exactly
/// when the chain compiled from its `k`-th nested chain matches (`direct()` has none).
pub proof fn law_gap_step_bits(p: Program, c: int, j: int, hits: Seq<bool>, matched: Seq<bool>)
    requires
        p.wf(),
        0 <= c < p.chains@.len(),
        0 <= j < p.chains@[c].steps@.len(),
        is_gap(p.chains@[c].steps@[j]),
    ensures
        ({
            let steps = p.chains@[c].steps@;
            let tests = p.chains@[c].tests@;
            let b = step_bit(steps, j);
            &&& 0 <= b
            &&& b + gap_tests(steps[j]) <= tests.len()
            &&& forall|k: int| 0 <= k < gap_tests(steps[j]) ==> #[trigger] gap_bit_reads(p, tests, hits, matched, b, steps[j], k)
        }),
{
    let steps = p.chains@[c].steps@;
    let tests = p.chains@[c].tests@;
    let b = step_bit(steps, j);
    assert(tests_follow(p, tests, steps));
    assert(step_tests_ok(p, tests, steps, j));
    let ts = tests.subrange(b, b + gap_tests(steps[j]));
    assert forall|k: int| 0 <= k < gap_tests(steps[j]) implies #[trigger] gap_bit_reads(p, tests, hits, matched, b, steps[j], k) by {
        assert(ts[k] == tests[b + k]);
        match steps[j] {
            StepM::GapWithout(n) => {
                let d = ts[0]->Chain_0 as int;
                assert(chain_of(p, d, gap_nested(steps[j], k)));
                assert(holds_seq(tests, hits, matched)[b + k] == test_holds(tests[b + k], hits, matched));
                assert(holds_seq(tests, hits, matched)[b + k] == matched[d]);
            },
            StepM::GapWithEvery(cs) => {
                assert(chained(p, ts[k], cs[k]));
                let d = ts[k]->Chain_0 as int;
                assert(chain_of(p, d, gap_nested(steps[j], k)));
                assert(holds_seq(tests, hits, matched)[b + k] == test_holds(tests[b + k], hits, matched));
                assert(holds_seq(tests, hits, matched)[b + k] == matched[d]);
            },
            StepM::GapWithAny(cs) => {
                assert(chained(p, ts[k], cs[k]));
                let d = ts[k]->Chain_0 as int;
                assert(chain_of(p, d, gap_nested(steps[j], k)));
                assert(holds_seq(tests, hits, matched)[b + k] == test_holds(tests[b + k], hits, matched));
                assert(holds_seq(tests, hits, matched)[b + k] == matched[d]);
            },
            _ => {},
        }
    }
}

/// `any()` and `every()` read their nested chains' matches as a set: two lists naming the
/// same chains give the same answer, so the order of the nested matchers does not matter.
pub proof fn law_combinator_order(a: Vec<usize>, b: Vec<usize>, hits: Seq<bool>, matched: Seq<bool>)
    requires
        forall|x: usize| a@.contains(x) <==> b@.contains(x),
    ensures
        test_holds(Test::Any(a), hits, matched) == test_holds(Test::Any(b), hits, matched),
        test_holds(Test::Every(a), hits, matched) == test_holds(Test::Every(b), hits, matched),
{
    if test_holds(Test::Any(a), hits, matched) {
        let j = choose|j: int| 0 <= j < a@.len() && matched[#[trigger] a@[j] as int];
        assert(a@.contains(a@[j]));
        assert(a@.contains(a@[j]) <==> b@.contains(a@[j]));
        let k = choose|k: int| 0 <= k < b@.len() && b@[k] == a@[j];
        assert(0 <= k < b@.len() && matched[b@[k] as int]);
        let t = Test::Any(b);
        assert(t matches Test::Any(cs) && exists|i: int| 0 <= i < cs@.len() && matched[#[trigger] cs@[i] as int]);
    }
    if test_holds(Test::Any(b), hits, matched) {
        let j = choose|j: int| 0 <= j < b@.len() && matched[#[trigger] b@[j] as int];
        assert(b@.contains(b@[j]));
        assert(a@.contains(b@[j]) <==> b@.contains(b@[j]));
        let k = choose|k: int| 0 <= k < a@.len() && a@[k] == b@[j];
        assert(0 <= k < a@.len() && matched[a@[k] as int]);
        let t = Test::Any(a);
        assert(t matches Test::Any(cs) && exists|i: int| 0 <= i < cs@.len() && matched[#[trigger] cs@[i] as int]);
    }
    if test_holds(Test::Every(a), hits, matched) {
        assert forall|j: int| 0 <= j < b@.len() implies matched[#[trigger] b@[j] as int] by {
            assert(b@.contains(b@[j]));
            assert(a@.contains(b@[j]) <==> b@.contains(b@[j]));
            let k = choose|k: int| 0 <= k < a@.len() && a@[k] == b@[j];
            assert(0 <= k < a@.len());
            let t = Test::Every(a);
            assert(t matches Test::Every(cs) && forall|i: int| 0 <= i < cs@.len() ==> matched[#[trigger] cs@[i] as int]);
            assert(matched[a@[k] as int]);
        }
    }
    if test_holds(Test::Every(b), hits, matched) {
        assert forall|j: int| 0 <= j < a@.len() implies matched[#[trigger] a@[j] as int] by {
            assert(a@.contains(a@[j]));
            assert(a@.contains(a@[j]) <==> b@.contains(a@[j]));
            let k = choose|k: int| 0 <= k < b@.len() && b@[k] == a@[j];
            assert(0 <= k < b@.len());
            let t = Test::Every(b);
            assert(t matches Test::Every(cs) && forall|i: int| 0 <= i < cs@.len() ==> matched[#[trigger] cs@[i] as int]);
            assert(matched[b@[k] as int]);
        }
    }
}

/// A chain matches a word of ancestry bitsets exactly when the word splits into the
/// chain's pieces, in order.
pub proof fn law_chain_pieces(steps: Seq<StepM>, w: Seq<Seq<u64>>)
    ensures
        lang(chain_pattern(steps), w) == seq_lang(chain_pieces(steps, 0, false), w),
{
    lemma_spec_sequence(chain_pieces(steps, 0, false), w);
}

/// `direct()`: the gap before the next selector is empty.
pub proof fn law_gap_direct(bit: int, s: Seq<Seq<u64>>)
    ensures
        lang(gap_pattern(StepM::Direct, bit), s) == (s.len() == 0),
{
}

/// `gap_without(m)`: the gap may be empty, and none of its elements is matched by `m`
/// (whose match is the gap's bit).
pub proof fn law_gap_without(nested: Seq<StepM>, bit: int, s: Seq<Seq<u64>>)
    requires
        0 <= bit <= usize::MAX,
    ensures
        lang(gap_pattern(StepM::GapWithout(nested), bit), s) == forall|i: int| 0 <= i < s.len() ==> !bit_set(#[trigger] s[i], bit),
{
    let x = Re::Atom(Atom::NotBit(bit as usize));
    lemma_spec_repeat(x, s);
    lemma_star_symbols(x, s);
    assert forall|i: int| 0 <= i < s.len() implies #[trigger] lang(x, s.subrange(i, i + 1)) == !bit_set(s[i], bit) by {
        assert(s.subrange(i, i + 1)[0] == s[i]);
    }
    if lang(gap_pattern(StepM::GapWithout(nested), bit), s) {
        assert forall|i: int| 0 <= i < s.len() implies !bit_set(#[trigger] s[i], bit) by {
            assert(lang(x, s.subrange(i, i + 1)));
        }
    }
}

/// Some symbol of `s` carries bit `bit + j`.
pub open spec fn occurs_in(s: Seq<Seq<u64>>, bit: int, j: int) -> bool {
    exists|i: int| 0 <= i < s.len() && bit_set(#[trigger] s[i], bit + j)
}

/// A bit occurs somewhere in `s` exactly when some symbol of `s` carries it.
proof fn lemma_somewhere(bit: int, j: int, s: Seq<Seq<u64>>)
    requires
        0 <= bit + j <= usize::MAX,
    ensures
        lang(somewhere(bit + j), s) == occurs_in(s, bit, j),
{
    let x = Re::Atom(Atom::Bit((bit + j) as usize));
    lemma_spec_sequence(seq![Re::Universal, x, Re::Universal], s);
    lemma_seq_somewhere(x, s);
    if lang(somewhere(bit + j), s) {
        let (i, m) = choose|i: int, m: int| 0 <= i && 0 <= m && i + m <= s.len() && #[trigger] lang(x, s.subrange(i, i + m));
        assert(s.subrange(i, i + m)[0] == s[i]);
    }
    if occurs_in(s, bit, j) {
        let i = choose|i: int| 0 <= i < s.len() && bit_set(#[trigger] s[i], bit + j);
        assert(s.subrange(i, i + 1)[0] == s[i]);
        assert(lang(x, s.subrange(i, i + 1)));
    }
}

/// `gap_with_every(ms)`: every nested matcher matches some element of the gap, in any
/// order (nested matcher `j` owns bit `bit + j`).
pub proof fn law_gap_with_every(nested: Seq<Seq<StepM>>, bit: int, s: Seq<Seq<u64>>)
    requires
        0 <= bit,
        bit + nested.len() <= usize::MAX,
    ensures
        lang(gap_pattern(StepM::GapWithEvery(nested), bit), s) == forall|j: int| 0 <= j < nested.len() ==> #[trigger] occurs_in(s, bit, j),
{
    let parts = Seq::new(nested.len(), |j: int| somewhere(bit + j));
    assert(gap_pattern(StepM::GapWithEvery(nested), bit) == spec_intersection(parts));
    lemma_spec_intersection(parts, s);
    lemma_all_lang(parts, s);
    if lang(gap_pattern(StepM::GapWithEvery(nested), bit), s) {
        assert forall|j: int| 0 <= j < nested.len() implies #[trigger] occurs_in(s, bit, j) by {
            lemma_somewhere(bit, j, s);
            assert(lang(parts[j], s));
        }
    }
    if forall|j: int| 0 <= j < nested.len() ==> #[trigger] occurs_in(s, bit, j) {
        assert forall|j: int| 0 <= j < parts.len() implies #[trigger] lang(parts[j], s) by {
            lemma_somewhere(bit, j, s);
            assert(occurs_in(s, bit, j));
        }
    }
}

/// `gap_with_any(ms)`: some element of the gap is matched by some nested matcher (nested
/// matcher `j` owns bit `bit + j`).
pub proof fn law_gap_with_any(nested: Seq<Seq<StepM>>, bit: int, s: Seq<Seq<u64>>)
    requires
        0 <= bit,
        bit + nested.len() <= usize::MAX,
    ensures
        lang(gap_pattern(StepM::GapWithAny(nested), bit), s) == exists|j: int| 0 <= j < nested.len() && #[trigger] occurs_in(s, bit, j),
{
    let bits = Seq::new(nested.len(), |j: int| Re::Atom(Atom::Bit((bit + j) as usize)));
    let c = spec_choice(bits);
    assert(gap_pattern(StepM::GapWithAny(nested), bit) == spec_sequence(seq![Re::Universal, c, Re::Universal]));
    lemma_spec_sequence(seq![Re::Universal, c, Re::Universal], s);
    lemma_seq_somewhere(c, s);
    if lang(gap_pattern(StepM::GapWithAny(nested), bit), s) {
        let (i, m) = choose|i: int, m: int| 0 <= i && 0 <= m && i + m <= s.len() && #[trigger] lang(c, s.subrange(i, i + m));
        let t = s.subrange(i, i + m);
        lemma_spec_choice(bits, t);
        lemma_any_lang(bits, t);
        let j = choose|j: int| 0 <= j < bits.len() && #[trigger] lang(bits[j], t);
        assert(t[0] == s[i]);
        assert(bit_set(s[i], bit + j));
        assert(occurs_in(s, bit, j));
    }
    if exists|j: int| 0 <= j < nested.len() && #[trigger] occurs_in(s, bit, j) {
        let j = choose|j: int| 0 <= j < nested.len() && #[trigger] occurs_in(s, bit, j);
        let i = choose|i: int| 0 <= i < s.len() && bit_set(#[trigger] s[i], bit + j);
        let t = s.subrange(i, i + 1);
        assert(t[0] == s[i]);
        assert(lang(bits[j], t));
        lemma_spec_choice(bits, t);
        lemma_any_lang(bits, t);
        assert(lang(c, t));
    }
}

/// A one-selector chain matches an element exactly when the selector matches it,
/// whatever its ancestors.
pub proof fn law_single_selector(a: StepM, w: Seq<Seq<u64>>)
    requires
        !is_gap(a),
    ensures
        lang(chain_pattern(seq![a]), w) == (w.len() >= 1 && bit_set(w.last(), 0)),
{
    let steps = seq![a];
    assert(steps.drop_first() =~= Seq::<StepM>::empty());
    let pieces = seq![Re::Universal, Re::Atom(Atom::Bit(0))];
    reveal_with_fuel(chain_pieces, 4);
    assert(chain_pieces(steps, 0, false) =~= pieces);
    law_chain_pieces(steps, w);
    lemma_seq_universal_head(seq![Re::Atom(Atom::Bit(0))], w);
    assert(pieces =~= seq![Re::Universal] + seq![Re::Atom(Atom::Bit(0))]);
    if lang(chain_pattern(steps), w) {
        let k = choose|k: int| 0 <= k <= w.len() && #[trigger] seq_lang(seq![Re::Atom(Atom::Bit(0))], w.skip(k));
        lemma_seq_bit_head(0, Seq::empty(), w.skip(k));
        assert(seq![Re::Atom(Atom::Bit(0))] =~= seq![Re::Atom(Atom::Bit(0))] + Seq::<Re>::empty());
        assert(w.skip(k)[0] == w.last());
    }
    if w.len() >= 1 && bit_set(w.last(), 0) {
        let k = w.len() - 1;
        lemma_seq_bit_head(0, Seq::empty(), w.skip(k));
        assert(seq![Re::Atom(Atom::Bit(0))] =~= seq![Re::Atom(Atom::Bit(0))] + Seq::<Re>::empty());
        assert(w.skip(k)[0] == w.last());
        assert(w.skip(k).skip(1).len() == 0);
        assert(seq_lang(seq![Re::Atom(Atom::Bit(0))], w.skip(k)));
    }
}

/// Two selectors in a row (the descendant combinator): the element matches the second,
/// and some proper ancestor matches the first.
pub proof fn law_descendant(a: StepM, b: StepM, w: Seq<Seq<u64>>)
    requires
        !is_gap(a),
        !is_gap(b),
    ensures
        lang(chain_pattern(seq![a, b]), w) == (w.len() >= 1 && bit_set(w.last(), 1) && exists|i: int|
            0 <= i < w.len() - 1 && bit_set(#[trigger] w[i], 0)),
{
    let steps = seq![a, b];
    assert(steps.drop_first() =~= seq![b]);
    assert(seq![b].drop_first() =~= Seq::<StepM>::empty());
    let b0 = Re::Atom(Atom::Bit(0));
    let b1 = Re::Atom(Atom::Bit(1));
    let tail = seq![b1];
    let mid = seq![Re::Universal] + tail;
    let after = seq![b0] + mid;
    let pieces = seq![Re::Universal] + after;
    reveal_with_fuel(chain_pieces, 4);
    assert(chain_pieces(steps, 0, false) =~= pieces);
    law_chain_pieces(steps, w);
    lemma_seq_universal_head(after, w);
    assert(tail =~= seq![b1] + Seq::<Re>::empty());
    if lang(chain_pattern(steps), w) {
        let k = choose|k: int| 0 <= k <= w.len() && #[trigger] seq_lang(after, w.skip(k));
        let v = w.skip(k);
        lemma_seq_bit_head(0, mid, v);
        let u = v.skip(1);
        lemma_seq_universal_head(tail, u);
        let m = choose|m: int| 0 <= m <= u.len() && #[trigger] seq_lang(tail, u.skip(m));
        lemma_seq_bit_head(1, Seq::empty(), u.skip(m));
        assert(w[k] == v[0]);
        assert(u.skip(m).len() == 1);
        assert(u.skip(m)[0] == w.last());
        assert(bit_set(w[k], 0));
    }
    if w.len() >= 1 && bit_set(w.last(), 1) && exists|i: int| 0 <= i < w.len() - 1 && bit_set(#[trigger] w[i], 0) {
        let i = choose|i: int| 0 <= i < w.len() - 1 && bit_set(#[trigger] w[i], 0);
        let v = w.skip(i);
        let u = v.skip(1);
        let m = u.len() - 1;
        lemma_seq_bit_head(1, Seq::empty(), u.skip(m));
        assert(u.skip(m)[0] == w.last());
        assert(u.skip(m).skip(1).len() == 0);
        assert(seq_lang(tail, u.skip(m)));
        lemma_seq_universal_head(tail, u);
        lemma_seq_bit_head(0, mid, v);
        assert(v[0] == w[i]);
        assert(seq_lang(after, w.skip(i)));
    }
}

/// A selector, `direct()`, a selector (the child combinator): the element matches the
/// second, and its parent matches the first.
pub proof fn law_child(a: StepM, b: StepM, w: Seq<Seq<u64>>)
    requires
        !is_gap(a),
        !is_gap(b),
    ensures
        lang(chain_pattern(seq![a, StepM::Direct, b]), w) == (w.len() >= 2 && bit_set(w[w.len() - 2], 0) && bit_set(w.last(), 1)),
{
    let steps = seq![a, StepM::Direct, b];
    assert(steps.drop_first() =~= seq![StepM::Direct, b]);
    assert(seq![StepM::Direct, b].drop_first() =~= seq![b]);
    assert(seq![b].drop_first() =~= Seq::<StepM>::empty());
    let b0 = Re::Atom(Atom::Bit(0));
    let b1 = Re::Atom(Atom::Bit(1));
    let tail = seq![b1];
    let mid = seq![Re::Epsilon] + tail;
    let after = seq![b0] + mid;
    let pieces = seq![Re::Universal] + after;
    reveal_with_fuel(chain_pieces, 4);
    assert(chain_pieces(seq![b], 1, true) =~= tail);
    assert(chain_pieces(steps, 0, false) =~= pieces);
    law_chain_pieces(steps, w);
    lemma_seq_universal_head(after, w);
    assert(tail =~= seq![b1] + Seq::<Re>::empty());
    if lang(chain_pattern(steps), w) {
        let k = choose|k: int| 0 <= k <= w.len() && #[trigger] seq_lang(after, w.skip(k));
        let v = w.skip(k);
        lemma_seq_bit_head(0, mid, v);
        let u = v.skip(1);
        lemma_seq_epsilon_head(tail, u);
        lemma_seq_bit_head(1, Seq::empty(), u);
        assert(u.len() == 1);
        assert(k == w.len() - 2);
        assert(w[k] == v[0]);
        assert(u[0] == w.last());
    }
    if w.len() >= 2 && bit_set(w[w.len() - 2], 0) && bit_set(w.last(), 1) {
        let k = w.len() - 2;
        let v = w.skip(k);
        let u = v.skip(1);
        lemma_seq_bit_head(1, Seq::empty(), u);
        assert(u[0] == w.last());
        assert(u.skip(1).len() == 0);
        lemma_seq_epsilon_head(tail, u);
        lemma_seq_bit_head(0, mid, v);
        assert(v[0] == w[k]);
        assert(seq_lang(after, w.skip(k)));
    }
}

/// The last piece of a chain ending on an element selector is that selector's bit, the
/// last of the chain's tests.
proof fn lemma_chain_pieces_last(steps: Seq<StepM>, bit: int, after_gap: bool)
    requires
        steps.len() > 0,
        !is_gap(steps.last()),
    ensures
        chain_pieces(steps, bit, after_gap).len() > 0,
        chain_pieces(steps, bit, after_gap).last() == Re::Atom(Atom::Bit((bit + chain_tests(steps) - 1) as usize)),
    decreases steps.len(),
{
    let rest = steps.drop_first();
    if steps.len() == 1 {
        assert(rest.len() == 0);
        assert(steps[0] == steps.last());
    } else {
        assert(rest.last() == steps.last());
        if is_gap(steps[0]) {
            lemma_chain_pieces_last(rest, bit + gap_tests(steps[0]), true);
        } else {
            lemma_chain_pieces_last(rest, bit + 1, false);
        }
    }
}

/// A chain matches only elements that its last selector matches: the element's own
/// bitset, last in the ancestry word, carries the last selector's bit.
pub proof fn law_last_selector(steps: Seq<StepM>, w: Seq<Seq<u64>>)
    requires
        chain_valid(steps),
        chain_tests(steps) <= usize::MAX,
    ensures
        lang(chain_pattern(steps), w) ==> w.len() >= 1 && bit_set(w.last(), chain_tests(steps) - 1),
{
    let pieces = chain_pieces(steps, 0, false);
    lemma_chain_pieces_last(steps, 0, false);
    law_chain_pieces(steps, w);
    let init = pieces.drop_last();
    let last = pieces.last();
    assert(init.push(last) =~= pieces);
    lemma_seq_snoc(init, last, w);
    if lang(chain_pattern(steps), w) {
        let k = choose|k: int| #[trigger] snoc_at(init, last, w, k);
        lemma_bit_lang((chain_tests(steps) - 1) as usize, w.skip(k));
        assert(w.skip(k)[0] == w.last());
    }
}

} // verus!
