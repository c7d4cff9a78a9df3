//! Validated ancestry / gap hierarchy shared by [`Matcher`](super::matcher::Matcher) and the plan IR.

use vstd::prelude::*;
use crate::element_view::ElementView;
use super::step::{chains_predicates, lemma_chains_predicates_push, lemma_steps_predicates_push, step_predicates, steps_predicates, 
    chain_valid, chains_valid, chains_view, is_element, is_gap, lemma_chains_valid_push, lemma_nested_valid_push, prefix_valid, step_nested_valid, steps_view,
    Predicate, Step, StepM,
};

verus! {

/// Validated matcher hierarchy: element selectors, gaps, and nested combinators.
pub struct MatchPattern {
    steps: Vec<Step>,
    /// The predicates of the filters that have one, in the order of those filters
    /// (nested chains included, depth first).
    predicates: Vec<Box<dyn Predicate>>,
}

/// A list holding the one predicate `predicate`, boxed: a call through the box is a call
/// of `predicate`, so it may be made and answers as `predicate` does.
#[verifier::external_body]
fn single_predicate<F: Fn(&ElementView) -> bool + 'static>(predicate: F) -> (r: Vec<Box<dyn Predicate>>)
    ensures
        r@.len() == 1,
        forall|e: &ElementView| #[trigger] r@[0].ready(e) == call_requires(predicate, (e,)),
        forall|e: &ElementView, b: bool| #[trigger] r@[0].answers(e, b) == call_ensures(predicate, (e, ), b),
{
    vec![Box::new(predicate)]
}

/// The models of several patterns' steps.
pub open spec fn patterns_view(ps: Seq<MatchPattern>) -> Seq<Seq<StepM>> {
    Seq::new(ps.len(), |i: int| ps[i].spec_steps())
}

/// The predicates of several patterns, pattern after pattern.
pub open spec fn patterns_predicates(ps: Seq<MatchPattern>) -> Seq<Box<dyn Predicate>>
    decreases ps.len(),
{
    if ps.len() == 0 {
        Seq::empty()
    } else {
        patterns_predicates(ps.drop_last()) + ps.last().spec_predicates()
    }
}

/// Every pattern is a complete chain.
pub open spec fn all_patterns_valid(ps: Seq<MatchPattern>) -> bool {
    forall|i: int| 0 <= i < ps.len() ==> chain_valid(#[trigger] ps[i].spec_steps())
}

impl MatchPattern {
    #[verifier::type_invariant]
    spec fn inv(self) -> bool {
        &&& prefix_valid(steps_view(self.steps@))
        &&& self.predicates@.len() == steps_predicates(steps_view(self.steps@))
    }

    /// Number of predicates held.
    pub closed spec fn spec_predicate_count(&self) -> nat {
        self.predicates@.len()
    }

    /// The predicates held, in the order of their filters.
    pub closed spec fn spec_predicates(&self) -> Seq<Box<dyn Predicate>> {
        self.predicates@
    }

    pub closed spec fn spec_steps(&self) -> Seq<StepM> {
        steps_view(self.steps@)
    }

    pub fn new() -> (r: Self)
        ensures
            r.spec_steps() == Seq::<StepM>::empty(),
            r.spec_predicate_count() == 0,
            r.spec_predicates() == Seq::<Box<dyn Predicate>>::empty(),
    {
        let r = MatchPattern { steps: Vec::new(), predicates: Vec::new() };
        assert(steps_view(r.steps@) =~= Seq::<StepM>::empty());
        r
    }

    /// CSS selector plus custom predicate.
    pub fn filter<F: Fn(&ElementView) -> bool + 'static>(self, selector: &str, predicate: F) -> (r: Self)
        ensures
            r.spec_steps() == self.spec_steps().push(StepM::Filter(selector@, true)),
            r.spec_predicates().len() == self.spec_predicates().len() + 1,
            r.spec_predicates().drop_last() == self.spec_predicates(),
            forall|e: &ElementView| #[trigger] r.spec_predicates().last().ready(e) == call_requires(predicate, (e,)),
            forall|e: &ElementView, b: bool| #[trigger] r.spec_predicates().last().answers(e, b) == call_ensures(predicate, (e,), b),
    {
        let extra = single_predicate(predicate);
        let r = self.push_element(Step::Filter(selector.to_owned(), true), extra);
        proof {
            assert(r.spec_predicates().drop_last() =~= self.spec_predicates());
        }
        r
    }

    /// CSS selector with no predicate.
    pub fn css(self, selector: &str) -> (r: Self)
        ensures
            r.spec_steps() == self.spec_steps().push(StepM::Filter(selector@, false)),
            r.spec_predicates() == self.spec_predicates(),
    {
        self.push_element(Step::Filter(selector.to_owned(), false), Vec::new())
    }

    /// Negated nested pattern (`:not()`).
    pub fn not(self, pattern: MatchPattern) -> (r: Self)
        requires
            chain_valid(pattern.spec_steps()),
        ensures
            r.spec_steps() == self.spec_steps().push(StepM::Not(pattern.spec_steps())),
            r.spec_predicates() == self.spec_predicates() + pattern.spec_predicates(),
    {
        let (inner, extra) = pattern.into_parts();
        let step = Step::Not(inner);
        proof {
            super::step::lemma_step_children(step);
        }
        self.push_element(step, extra)
    }

    /// Conjunction of nested patterns.
    pub fn every(self, patterns: Vec<MatchPattern>) -> (r: Self)
        requires
            patterns.len() > 0,
            all_patterns_valid(patterns@),
        ensures
            r.spec_steps() == self.spec_steps().push(StepM::Every(patterns_view(patterns@))),
            r.spec_predicates() == self.spec_predicates() + patterns_predicates(patterns@),
    {
        let (chains, extra) = Self::nested_chains(patterns);
        let step = Step::Every(chains);
        proof {
            super::step::lemma_step_children(step);
        }
        self.push_element(step, extra)
    }

    /// Disjunction of nested patterns.
    pub fn any(self, patterns: Vec<MatchPattern>) -> (r: Self)
        requires
            patterns.len() > 0,
            all_patterns_valid(patterns@),
        ensures
            r.spec_steps() == self.spec_steps().push(StepM::Any(patterns_view(patterns@))),
            r.spec_predicates() == self.spec_predicates() + patterns_predicates(patterns@),
    {
        let (chains, extra) = Self::nested_chains(patterns);
        let step = Step::Any(chains);
        proof {
            super::step::lemma_step_children(step);
        }
        self.push_element(step, extra)
    }

    /// Gap with no nested match.
    pub fn gap_without(self, pattern: MatchPattern) -> (r: Self)
        requires
            chain_valid(pattern.spec_steps()),
            !self.ends_with_direct(),
        ensures
            r.spec_steps() == self.spec_steps().push(StepM::GapWithout(pattern.spec_steps())),
            r.spec_predicates() == self.spec_predicates() + pattern.spec_predicates(),
    {
        let (inner, extra) = pattern.into_parts();
        let step = Step::GapWithout(inner);
        proof {
            super::step::lemma_step_children(step);
        }
        self.push_gap(step, extra)
    }

    /// Gap containing every nested pattern (any order).
    pub fn gap_with_every(self, patterns: Vec<MatchPattern>) -> (r: Self)
        requires
            patterns.len() > 0,
            all_patterns_valid(patterns@),
            !self.ends_with_direct(),
        ensures
            r.spec_steps() == self.spec_steps().push(
                StepM::GapWithEvery(patterns_view(patterns@)),
            ),
            r.spec_predicates() == self.spec_predicates() + patterns_predicates(patterns@),
    {
        let (chains, extra) = Self::nested_chains(patterns);
        let step = Step::GapWithEvery(chains);
        proof {
            super::step::lemma_step_children(step);
        }
        self.push_gap(step, extra)
    }

    /// Gap containing any nested pattern.
    pub fn gap_with_any(self, patterns: Vec<MatchPattern>) -> (r: Self)
        requires
            patterns.len() > 0,
            all_patterns_valid(patterns@),
            !self.ends_with_direct(),
        ensures
            r.spec_steps() == self.spec_steps().push(StepM::GapWithAny(patterns_view(patterns@))),
            r.spec_predicates() == self.spec_predicates() + patterns_predicates(patterns@),
    {
        let (chains, extra) = Self::nested_chains(patterns);
        let step = Step::GapWithAny(chains);
        proof {
            super::step::lemma_step_children(step);
        }
        self.push_gap(step, extra)
    }

    /// Zero-length gap (`>` combinator). Must sit between two element selectors.
    pub fn direct(self) -> (r: Self)
        requires
            self.spec_steps().len() > 0,
            is_element(self.spec_steps().last()),
        ensures
            r.spec_steps() == self.spec_steps().push(StepM::Direct),
            r.spec_predicates() == self.spec_predicates(),
    {
        let r = self.push_gap(Step::Direct, Vec::new());
        assert(r.spec_predicates() =~= self.spec_predicates());
        r
    }

    /// The last step is `direct()`.
    pub open spec fn ends_with_direct(&self) -> bool {
        self.spec_steps().len() > 0 && self.spec_steps().last() is Direct
    }

    /// Whether the pattern is a complete chain: non-empty and not ending on a gap.
    pub fn validate(&self) -> (r: bool)
        ensures
            r == chain_valid(self.spec_steps()),
    {
        proof {
            use_type_invariant(self);
        }
        let n = self.steps.len();
        n > 0 && !self.steps[n - 1].is_gap()
    }

    pub fn steps(&self) -> (r: &[Step])
        ensures
            steps_view(r@) == self.spec_steps(),
    {
        self.steps.as_slice()
    }

    /// The steps and the predicates of their filters, in filter order.
    pub fn into_parts(self) -> (r: (Vec<Step>, Vec<Box<dyn Predicate>>))
        ensures
            steps_view(r.0@) == self.spec_steps(),
            r.1@.len() == steps_predicates(self.spec_steps()),
            r.1@.len() == self.spec_predicate_count(),
            r.1@ == self.spec_predicates(),
    {
        proof {
            use_type_invariant(&self);
        }
        (self.steps, self.predicates)
    }

    /// The steps of every pattern, each a complete chain, and all their predicates in order.
    pub fn nested_chains(patterns: Vec<MatchPattern>) -> (r: (Vec<Vec<Step>>, Vec<Box<dyn Predicate>>))
        requires
            all_patterns_valid(patterns@),
        ensures
            chains_view(r.0@) == patterns_view(patterns@),
            chains_valid(chains_view(r.0@)),
            r.1@.len() == chains_predicates(chains_view(r.0@)),
            r.1@ == patterns_predicates(patterns@),
    {
        let ghost views = patterns_view(patterns@);
        let ghost original = patterns@;
        let mut patterns = patterns;
        assert(original.take(0) =~= Seq::<MatchPattern>::empty());
        let mut out: Vec<Vec<Step>> = Vec::new();
        let mut predicates: Vec<Box<dyn Predicate>> = Vec::new();
        let ghost mut k: int = 0;
        assert(chains_valid(chains_view(out@)));
        assert(chains_view(out@) =~= Seq::<Seq<StepM>>::empty());
        while patterns.len() > 0
            invariant
                0 <= k <= views.len(),
                k + patterns@.len() == views.len(),
                original.len() == views.len(),
                forall|j: int| 0 <= j < patterns@.len() ==> #[trigger] patterns@[j].spec_steps() == views[k + j],
                forall|j: int| 0 <= j < patterns@.len() ==> chain_valid(#[trigger] patterns@[j].spec_steps()),
                chains_view(out@) =~= views.take(k),
                chains_valid(chains_view(out@)),
                predicates@.len() == chains_predicates(chains_view(out@)),
                forall|j: int| 0 <= j < patterns@.len() ==> #[trigger] patterns@[j] == original[k + j],
                predicates@ == patterns_predicates(original.take(k)),
            decreases patterns.len(),
        {
            let ghost rest = patterns@;
            assert(rest[0] == original[k + 0]);
            let p = patterns.remove(0);
            assert(p == rest[0]);
            let ghost pp = p;
            let (steps, mut extra) = p.into_parts();
            proof {
                lemma_chains_valid_push(chains_view(out@), steps_view(steps@));
                lemma_chains_predicates_push(chains_view(out@), steps_view(steps@));
            }
            let ghost before = chains_view(out@);
            let ghost pbefore = predicates@;
            let ghost added = extra@;
            out.push(steps);
            predicates.append(&mut extra);
            proof {
                assert(pp == original[k]);
                assert(original.take(k + 1).drop_last() =~= original.take(k));
                assert(original.take(k + 1).last() == original[k]);
                assert forall|j: int| 0 <= j < patterns@.len() implies #[trigger] patterns@[j] == original[k + 1 + j] by {
                    assert(patterns@[j] == rest[j + 1]);
                }
                assert(predicates@ =~= pbefore + added);
            }
            assert(chains_view(out@) =~= before.push(steps_view(steps@)));
            proof {
                k = k + 1;
            }
        }
        assert(views.take(views.len() as int) =~= views);
        assert(original.take(original.len() as int) =~= original);
        (out, predicates)
    }

    fn push_element(self, step: Step, extra: Vec<Box<dyn Predicate>>) -> (r: Self)
        requires
            step_nested_valid(step@),
            is_element(step@),
            extra@.len() == step_predicates(step@),
        ensures
            r.spec_steps() == self.spec_steps().push(step@),
            r.spec_predicates() == self.spec_predicates() + extra@,
    {
        proof {
            use_type_invariant(&self);
        }
        let ghost old_steps = self.spec_steps();
        let MatchPattern { steps, predicates } = self;
        let mut steps = steps;
        let mut predicates = predicates;
        let mut extra = extra;
        steps.push(step);
        predicates.append(&mut extra);
        proof {
            assert(steps_view(steps@) =~= old_steps.push(step@));
            lemma_nested_valid_push(old_steps, step@);
            lemma_steps_predicates_push(old_steps, step@);
        }
        MatchPattern { steps, predicates }
    }

    fn push_gap(self, gap: Step, extra: Vec<Box<dyn Predicate>>) -> (r: Self)
        requires
            step_nested_valid(gap@),
            is_gap(gap@),
            gap@ is Direct ==> self.spec_steps().len() > 0 && is_element(self.spec_steps().last()),
            !self.ends_with_direct(),
            extra@.len() == step_predicates(gap@),
        ensures
            r.spec_steps() == self.spec_steps().push(gap@),
            r.spec_predicates() == self.spec_predicates() + extra@,
    {
        proof {
            use_type_invariant(&self);
        }
        let ghost old_steps = self.spec_steps();
        let MatchPattern { steps, predicates } = self;
        let mut steps = steps;
        let mut predicates = predicates;
        let mut extra = extra;
        steps.push(gap);
        predicates.append(&mut extra);
        proof {
            assert(steps_view(steps@) =~= old_steps.push(gap@));
            lemma_nested_valid_push(old_steps, gap@);
            lemma_steps_predicates_push(old_steps, gap@);
        }
        MatchPattern { steps, predicates }
    }
}

} // verus!
