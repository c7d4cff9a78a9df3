//! Ancestry-chain steps shared by the matcher builders and the engine.

use vstd::prelude::*;
use crate::element_view::ElementView;

verus! {

/// Predicate on a candidate element for [`Step::Filter`].
pub trait Predicate {
    /// Whether the predicate may be called on `element`.
    spec fn ready(&self, element: &ElementView) -> bool;

    /// `r` is an answer the predicate may give on `element`.
    spec fn answers(&self, element: &ElementView, r: bool) -> bool;

    fn test(&self, element: &ElementView) -> (r: bool)
        requires
            self.ready(element),
        ensures
            self.answers(element, r),
    ;
}

impl<F: Fn(&ElementView) -> bool> Predicate for F {
    open spec fn ready(&self, element: &ElementView) -> bool {
        call_requires(*self, (element,))
    }

    open spec fn answers(&self, element: &ElementView, r: bool) -> bool {
        call_ensures(*self, (element,), r)
    }

    fn test(&self, element: &ElementView) -> (r: bool)
        ensures
            call_ensures(*self, (element,), r),
    {
        self(element)
    }
}

/// One link of an ancestry chain.
pub enum Step {
    /// A CSS selector, optionally paired with a predicate on the candidate element
    /// (`true`). Predicates are held beside the steps, in the order of their filters.
    Filter(String, bool),
    /// Elements that the nested chain does not match.
    Not(Vec<Step>),
    /// Elements that all of the nested chains match.
    Every(Vec<Vec<Step>>),
    /// Elements that at least one of the nested chains matches.
    Any(Vec<Vec<Step>>),
    /// A gap containing no element matched by the nested chain.
    GapWithout(Vec<Step>),
    /// A gap containing matches for every nested chain, in any order.
    GapWithEvery(Vec<Vec<Step>>),
    /// A gap containing an element matched by at least one nested chain.
    GapWithAny(Vec<Vec<Step>>),
    /// A zero-length gap: the next selector must match a direct child.
    Direct,
}

/// Model of a step: selectors as character sequences, predicates by presence.
pub enum StepM {
    Filter(Seq<char>, bool),
    Not(Seq<StepM>),
    Every(Seq<Seq<StepM>>),
    Any(Seq<Seq<StepM>>),
    GapWithout(Seq<StepM>),
    GapWithEvery(Seq<Seq<StepM>>),
    GapWithAny(Seq<Seq<StepM>>),
    Direct,
}

pub open spec fn step_view(s: Step) -> StepM
    decreases s,
{
    match s {
        Step::Filter(selector, predicate) => StepM::Filter(selector@, predicate),
        Step::Not(c) => StepM::Not(
            Seq::new(
                c@.len(),
                |i: int|
                    if 0 <= i < c@.len() {
                        step_view(c@[i])
                    } else {
                        StepM::Direct
                    },
            ),
        ),
        Step::GapWithout(c) => StepM::GapWithout(
            Seq::new(
                c@.len(),
                |i: int|
                    if 0 <= i < c@.len() {
                        step_view(c@[i])
                    } else {
                        StepM::Direct
                    },
            ),
        ),
        Step::Every(cs) => StepM::Every(
            Seq::new(
                cs@.len(),
                |i: int|
                    if 0 <= i < cs@.len() {
                        Seq::new(
                            cs@[i]@.len(),
                            |j: int|
                                if 0 <= j < cs@[i]@.len() {
                                    step_view(cs@[i]@[j])
                                } else {
                                    StepM::Direct
                                },
                        )
                    } else {
                        Seq::empty()
                    },
            ),
        ),
        Step::Any(cs) => StepM::Any(
            Seq::new(
                cs@.len(),
                |i: int|
                    if 0 <= i < cs@.len() {
                        Seq::new(
                            cs@[i]@.len(),
                            |j: int|
                                if 0 <= j < cs@[i]@.len() {
                                    step_view(cs@[i]@[j])
                                } else {
                                    StepM::Direct
                                },
                        )
                    } else {
                        Seq::empty()
                    },
            ),
        ),
        Step::GapWithEvery(cs) => StepM::GapWithEvery(
            Seq::new(
                cs@.len(),
                |i: int|
                    if 0 <= i < cs@.len() {
                        Seq::new(
                            cs@[i]@.len(),
                            |j: int|
                                if 0 <= j < cs@[i]@.len() {
                                    step_view(cs@[i]@[j])
                                } else {
                                    StepM::Direct
                                },
                        )
                    } else {
                        Seq::empty()
                    },
            ),
        ),
        Step::GapWithAny(cs) => StepM::GapWithAny(
            Seq::new(
                cs@.len(),
                |i: int|
                    if 0 <= i < cs@.len() {
                        Seq::new(
                            cs@[i]@.len(),
                            |j: int|
                                if 0 <= j < cs@[i]@.len() {
                                    step_view(cs@[i]@[j])
                                } else {
                                    StepM::Direct
                                },
                        )
                    } else {
                        Seq::empty()
                    },
            ),
        ),
        Step::Direct => StepM::Direct,
    }
}

impl View for Step {
    type V = StepM;

    open spec fn view(&self) -> StepM {
        step_view(*self)
    }
}

/// The models of a chain's steps.
pub open spec fn steps_view(v: Seq<Step>) -> Seq<StepM> {
    Seq::new(v.len(), |i: int| v[i]@)
}

/// The models of several chains.
pub open spec fn chains_view(v: Seq<Vec<Step>>) -> Seq<Seq<StepM>> {
    Seq::new(v.len(), |i: int| steps_view(v[i]@))
}

pub proof fn lemma_step_children(s: Step)
    ensures
        s matches Step::Not(c) ==> s@ == StepM::Not(steps_view(c@)),
        s matches Step::GapWithout(c) ==> s@ == StepM::GapWithout(steps_view(c@)),
        s matches Step::Every(cs) ==> s@ == StepM::Every(chains_view(cs@)),
        s matches Step::Any(cs) ==> s@ == StepM::Any(chains_view(cs@)),
        s matches Step::GapWithEvery(cs) ==> s@ == StepM::GapWithEvery(chains_view(cs@)),
        s matches Step::GapWithAny(cs) ==> s@ == StepM::GapWithAny(chains_view(cs@)),
{
    match s {
        Step::Not(c) => {
            if let StepM::Not(m) = s@ {
                assert(m =~= steps_view(c@));
            }
        },
        Step::GapWithout(c) => {
            if let StepM::GapWithout(m) = s@ {
                assert(m =~= steps_view(c@));
            }
        },
        Step::Every(cs) => {
            if let StepM::Every(m) = s@ {
                assert forall|i: int| 0 <= i < cs@.len() implies m[i] == chains_view(cs@)[i] by {
                    assert(m[i] =~= steps_view(cs@[i]@));
                }
                assert(m =~= chains_view(cs@));
            }
        },
        Step::Any(cs) => {
            if let StepM::Any(m) = s@ {
                assert forall|i: int| 0 <= i < cs@.len() implies m[i] == chains_view(cs@)[i] by {
                    assert(m[i] =~= steps_view(cs@[i]@));
                }
                assert(m =~= chains_view(cs@));
            }
        },
        Step::GapWithEvery(cs) => {
            if let StepM::GapWithEvery(m) = s@ {
                assert forall|i: int| 0 <= i < cs@.len() implies m[i] == chains_view(cs@)[i] by {
                    assert(m[i] =~= steps_view(cs@[i]@));
                }
                assert(m =~= chains_view(cs@));
            }
        },
        Step::GapWithAny(cs) => {
            if let StepM::GapWithAny(m) = s@ {
                assert forall|i: int| 0 <= i < cs@.len() implies m[i] == chains_view(cs@)[i] by {
                    assert(m[i] =~= steps_view(cs@[i]@));
                }
                assert(m =~= chains_view(cs@));
            }
        },
        _ => {},
    }
}

pub open spec fn is_gap(s: StepM) -> bool {
    match s {
        StepM::GapWithout(_) => true,
        StepM::GapWithEvery(_) => true,
        StepM::GapWithAny(_) => true,
        StepM::Direct => true,
        _ => false,
    }
}

pub open spec fn is_element(s: StepM) -> bool {
    !is_gap(s)
}

/// Every `direct()` sits right after an element selector and is not followed by a gap.
pub open spec fn directs_placed(steps: Seq<StepM>) -> bool {
    forall|i: int|
        0 <= i < steps.len() && (#[trigger] steps[i]) is Direct ==> 0 < i && is_element(steps[i - 1])
            && (i + 1 < steps.len() ==> is_element(steps[i + 1]))
}

/// A chain: non-empty, ending on an element selector, with well-placed `direct()`
/// links and valid nested chains.
pub open spec fn chain_valid(steps: Seq<StepM>) -> bool
    decreases steps, 1int,
{
    &&& steps.len() > 0
    &&& !is_gap(steps.last())
    &&& directs_placed(steps)
    &&& steps_nested_valid(steps)
}

/// Every step's nested chains are valid, and nested lists are non-empty.
pub open spec fn steps_nested_valid(steps: Seq<StepM>) -> bool
    decreases steps, 0int,
{
    if steps.len() == 0 {
        true
    } else {
        step_nested_valid(steps[0]) && steps_nested_valid(steps.drop_first())
    }
}

pub open spec fn step_nested_valid(s: StepM) -> bool
    decreases s, 0int,
{
    match s {
        StepM::Filter(_, _) => true,
        StepM::Direct => true,
        StepM::Not(c) => chain_valid(c),
        StepM::GapWithout(c) => chain_valid(c),
        StepM::Every(cs) => cs.len() > 0 && chains_valid(cs),
        StepM::Any(cs) => cs.len() > 0 && chains_valid(cs),
        StepM::GapWithEvery(cs) => cs.len() > 0 && chains_valid(cs),
        StepM::GapWithAny(cs) => cs.len() > 0 && chains_valid(cs),
    }
}

pub open spec fn chains_valid(cs: Seq<Seq<StepM>>) -> bool
    decreases cs, 0int,
{
    if cs.len() == 0 {
        true
    } else {
        chain_valid(cs[0]) && chains_valid(cs.drop_first())
    }
}

/// The predicate flags of the filters of `s`, nested chains included, depth first in
/// step order: the order in which their predicates are held.
pub open spec fn step_flags(s: StepM) -> Seq<bool>
    decreases s, 0int,
{
    match s {
        StepM::Filter(_, has_predicate) => seq![has_predicate],
        StepM::Direct => Seq::empty(),
        StepM::Not(c) => steps_flags(c),
        StepM::GapWithout(c) => steps_flags(c),
        StepM::Every(cs) => chains_flags(cs),
        StepM::Any(cs) => chains_flags(cs),
        StepM::GapWithEvery(cs) => chains_flags(cs),
        StepM::GapWithAny(cs) => chains_flags(cs),
    }
}

/// The predicate flags of the filters of `steps`, in order.
pub open spec fn steps_flags(steps: Seq<StepM>) -> Seq<bool>
    decreases steps, 1int,
{
    if steps.len() == 0 {
        Seq::empty()
    } else {
        step_flags(steps[0]) + steps_flags(steps.drop_first())
    }
}

/// The predicate flags of the filters of `cs`, chain after chain.
pub open spec fn chains_flags(cs: Seq<Seq<StepM>>) -> Seq<bool>
    decreases cs, 1int,
{
    if cs.len() == 0 {
        Seq::empty()
    } else {
        steps_flags(cs[0]) + chains_flags(cs.drop_first())
    }
}

/// Number of `true` flags.
pub open spec fn count_true(flags: Seq<bool>) -> nat
    decreases flags.len(),
{
    if flags.len() == 0 {
        0
    } else {
        count_true(flags.drop_last()) + if flags.last() { 1nat } else { 0nat }
    }
}

/// A chain under construction: every `direct()` follows an element selector and is not
/// followed by a gap, and nested chains are valid.
pub open spec fn prefix_valid(steps: Seq<StepM>) -> bool {
    &&& directs_placed(steps)
    &&& steps_nested_valid(steps)
}

pub proof fn lemma_nested_valid_push(steps: Seq<StepM>, s: StepM)
    requires
        steps_nested_valid(steps),
        step_nested_valid(s),
    ensures
        steps_nested_valid(steps.push(s)),
    decreases steps.len(),
{
    if steps.len() > 0 {
        lemma_nested_valid_push(steps.drop_first(), s);
        assert(steps.push(s).drop_first() =~= steps.drop_first().push(s));
        assert(steps.push(s)[0] == steps[0]);
    } else {
        assert(steps.push(s).drop_first() =~= Seq::<StepM>::empty());
        assert(steps.push(s)[0] == s);
        assert(steps_nested_valid(Seq::<StepM>::empty()));
    }
}

pub proof fn lemma_chains_valid_index(cs: Seq<Seq<StepM>>, i: int)
    requires
        chains_valid(cs),
        0 <= i < cs.len(),
    ensures
        chain_valid(cs[i]),
    decreases i,
{
    if i > 0 {
        lemma_chains_valid_index(cs.drop_first(), i - 1);
    }
}

pub proof fn lemma_steps_valid_index(steps: Seq<StepM>, i: int)
    requires
        steps_nested_valid(steps),
        0 <= i < steps.len(),
    ensures
        step_nested_valid(steps[i]),
    decreases i,
{
    if i > 0 {
        lemma_steps_valid_index(steps.drop_first(), i - 1);
    }
}

pub proof fn lemma_chains_valid_push(cs: Seq<Seq<StepM>>, c: Seq<StepM>)
    requires
        chains_valid(cs),
        chain_valid(c),
    ensures
        chains_valid(cs.push(c)),
    decreases cs.len(),
{
    if cs.len() > 0 {
        lemma_chains_valid_push(cs.drop_first(), c);
        assert(cs.push(c).drop_first() =~= cs.drop_first().push(c));
        assert(cs.push(c)[0] == cs[0]);
    } else {
        assert(cs.push(c).drop_first() =~= Seq::<Seq<StepM>>::empty());
        assert(cs.push(c)[0] == c);
        assert(chains_valid(Seq::<Seq<StepM>>::empty()));
    }
}

/// Number of filters with a predicate in a chain, nested chains included.
pub open spec fn steps_predicates(steps: Seq<StepM>) -> nat
    decreases steps,
{
    if steps.len() == 0 {
        0
    } else {
        step_predicates(steps[0]) + steps_predicates(steps.drop_first())
    }
}

pub open spec fn step_predicates(s: StepM) -> nat
    decreases s,
{
    match s {
        StepM::Filter(_, p) => if p {
            1
        } else {
            0
        },
        StepM::Direct => 0,
        StepM::Not(c) => steps_predicates(c),
        StepM::GapWithout(c) => steps_predicates(c),
        StepM::Every(cs) => chains_predicates(cs),
        StepM::Any(cs) => chains_predicates(cs),
        StepM::GapWithEvery(cs) => chains_predicates(cs),
        StepM::GapWithAny(cs) => chains_predicates(cs),
    }
}

pub open spec fn chains_predicates(cs: Seq<Seq<StepM>>) -> nat
    decreases cs,
{
    if cs.len() == 0 {
        0
    } else {
        steps_predicates(cs[0]) + chains_predicates(cs.drop_first())
    }
}

pub proof fn lemma_steps_predicates_push(steps: Seq<StepM>, s: StepM)
    ensures
        steps_predicates(steps.push(s)) == steps_predicates(steps) + step_predicates(s),
    decreases steps.len(),
{
    if steps.len() > 0 {
        lemma_steps_predicates_push(steps.drop_first(), s);
        assert(steps.push(s).drop_first() =~= steps.drop_first().push(s));
        assert(steps.push(s)[0] == steps[0]);
    } else {
        assert(steps.push(s).drop_first() =~= Seq::<StepM>::empty());
        assert(steps.push(s)[0] == s);
        assert(steps_predicates(Seq::<StepM>::empty()) == 0);
    }
}

pub proof fn lemma_chains_predicates_push(cs: Seq<Seq<StepM>>, c: Seq<StepM>)
    ensures
        chains_predicates(cs.push(c)) == chains_predicates(cs) + steps_predicates(c),
    decreases cs.len(),
{
    if cs.len() > 0 {
        lemma_chains_predicates_push(cs.drop_first(), c);
        assert(cs.push(c).drop_first() =~= cs.drop_first().push(c));
        assert(cs.push(c)[0] == cs[0]);
    } else {
        assert(cs.push(c).drop_first() =~= Seq::<Seq<StepM>>::empty());
        assert(cs.push(c)[0] == c);
        assert(chains_predicates(Seq::<Seq<StepM>>::empty()) == 0);
    }
}

/// Whether `steps` form a valid chain.
pub fn chain_is_valid(steps: &Vec<Step>) -> (r: bool)
    ensures
        r == chain_valid(steps_view(steps@)),
    decreases steps@, 0int,
{
    let ghost v = steps_view(steps@);
    let n = steps.len();
    if n == 0 {
        return false;
    }
    if steps[n - 1].is_gap() {
        assert(v.last() == steps@[n - 1]@);
        return false;
    }
    let mut i: usize = 0;
    assert(v.take(0) =~= Seq::<StepM>::empty());
    while i < n
        invariant
            i <= n,
            n == steps@.len(),
            v == steps_view(steps@),
            steps_nested_valid(v.take(i as int)),
            forall|j: int|
                0 <= j < i && (#[trigger] v[j]) is Direct ==> 0 < j && is_element(v[j - 1])
                    && (j + 1 < v.len() ==> is_element(v[j + 1])),
        decreases n - i,
    {
        proof {
            assert(decreases_to!(steps@ => steps@[i as int]));
            assert(v[i as int] == steps@[i as int]@);
        }
        if !step_is_valid(&steps[i]) {
            proof {
                if chain_valid(v) {
                    lemma_steps_valid_index(v, i as int);
                }
            }
            return false;
        }
        let direct_ok = match &steps[i] {
            Step::Direct => i > 0 && !steps[i - 1].is_gap() && (i + 1 >= n || !steps[i + 1].is_gap()),
            _ => true,
        };
        if !direct_ok {
            proof {
                assert(v[i as int] is Direct);
                if i > 0 {
                    assert(v[i - 1] == steps@[i - 1]@);
                }
                if i + 1 < n {
                    assert(v[i + 1] == steps@[i + 1]@);
                }
            }
            return false;
        }
        proof {
            if v[i as int] is Direct {
                assert(v[i - 1] == steps@[i - 1]@);
                if i + 1 < n {
                    assert(v[i + 1] == steps@[i + 1]@);
                }
            }
            lemma_nested_valid_push(v.take(i as int), v[i as int]);
            assert(v.take(i + 1) =~= v.take(i as int).push(v[i as int]));
        }
        i += 1;
    }
    assert(v.take(n as int) =~= v);
    assert(v.last() == steps@[n - 1]@);
    true
}

/// Whether the nested chains of `s` are valid (and nested lists non-empty).
pub fn step_is_valid(s: &Step) -> (r: bool)
    ensures
        r == step_nested_valid(s@),
    decreases *s, 0int,
{
    proof {
        lemma_step_children(*s);
    }
    match s {
        Step::Filter(_, _) => true,
        Step::Direct => true,
        Step::Not(c) => chain_is_valid(c),
        Step::GapWithout(c) => chain_is_valid(c),
        Step::Every(cs) => cs.len() > 0 && chains_are_valid(cs),
        Step::Any(cs) => cs.len() > 0 && chains_are_valid(cs),
        Step::GapWithEvery(cs) => cs.len() > 0 && chains_are_valid(cs),
        Step::GapWithAny(cs) => cs.len() > 0 && chains_are_valid(cs),
    }
}

/// Whether every chain of `cs` is valid.
pub fn chains_are_valid(cs: &Vec<Vec<Step>>) -> (r: bool)
    ensures
        r == chains_valid(chains_view(cs@)),
    decreases cs@, 0int,
{
    let ghost v = chains_view(cs@);
    let mut i: usize = 0;
    assert(v.take(0) =~= Seq::<Seq<StepM>>::empty());
    while i < cs.len()
        invariant
            i <= cs@.len(),
            v == chains_view(cs@),
            chains_valid(v.take(i as int)),
        decreases cs@.len() - i,
    {
        proof {
            assert(decreases_to!(cs@ => cs@[i as int]));
            assert(decreases_to!(cs@[i as int] => cs@[i as int]@));
            assert(v[i as int] == steps_view(cs@[i as int]@));
        }
        if !chain_is_valid(&cs[i]) {
            proof {
                if chains_valid(v) {
                    lemma_chains_valid_index(v, i as int);
                }
            }
            return false;
        }
        proof {
            lemma_chains_valid_push(v.take(i as int), v[i as int]);
            assert(v.take(i + 1) =~= v.take(i as int).push(v[i as int]));
        }
        i += 1;
    }
    assert(v.take(cs@.len() as int) =~= v);
    true
}

impl Step {
    pub fn is_gap(&self) -> (r: bool)
        ensures
            r == is_gap(self@),
    {
        match self {
            Step::GapWithout(_) => true,
            Step::GapWithEvery(_) => true,
            Step::GapWithAny(_) => true,
            Step::Direct => true,
            _ => false,
        }
    }

    pub fn is_element(&self) -> (r: bool)
        ensures
            r == is_element(self@),
    {
        !self.is_gap()
    }
}

} // verus!
