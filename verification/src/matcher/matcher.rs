//! Builder for advanced element matching: CSS selectors, custom predicates, ancestry
//! chains, constrained gaps and boolean combinators.

use vstd::prelude::*;
use crate::element_view::ElementView;
use crate::engine::engine::{ChainBindings, ChainId, Engine};
use crate::engine::program::chain_pattern;
use super::match_pattern::{all_patterns_valid, patterns_predicates, MatchPattern};
use super::step::{chain_valid, is_element, steps_flags, steps_view, Predicate, Step, StepM};
use crate::engine::program::assigns;

verus! {

/// Which callbacks a matcher has registered.
#[derive(Debug, Clone, Copy, PartialEq, Eq, Structural)]
pub struct Callbacks {
    pub each: bool,
    pub text_chunk: bool,
    pub text: bool,
    pub comment: bool,
}

impl Callbacks {
    pub open spec fn spec_none(self) -> bool {
        !self.each && !self.text_chunk && !self.text && !self.comment
    }
}

/// Builder for element matching over ancestry chains.
///
/// Element-level selectors: [`filter`](Self::filter), [`css`](Self::css),
/// [`not`](Self::not), [`every`](Self::every), [`any`](Self::any).
/// Gap-level selectors: [`gap_without`](Self::gap_without),
/// [`gap_with_every`](Self::gap_with_every), [`gap_with_any`](Self::gap_with_any),
/// [`direct`](Self::direct).
/// Callbacks: [`on_each`](Self::on_each), [`on_text_chunk`](Self::on_text_chunk),
/// [`on_text`](Self::on_text), [`on_comment`](Self::on_comment).
/// [`build`](Self::build) compiles the chain.
pub struct Matcher {
    pattern: MatchPattern,
    callbacks: Callbacks,
}

/// The models of several matchers' steps.
pub open spec fn matchers_view(ms: Seq<Matcher>) -> Seq<Seq<StepM>> {
    Seq::new(ms.len(), |i: int| ms[i].spec_steps())
}

/// The predicates of several matchers, matcher after matcher.
pub open spec fn matchers_predicates(ms: Seq<Matcher>) -> Seq<Box<dyn Predicate>>
    decreases ms.len(),
{
    if ms.len() == 0 {
        Seq::empty()
    } else {
        matchers_predicates(ms.drop_last()) + ms.last().spec_predicates()
    }
}

/// Every matcher is a complete chain without callbacks, fit to be nested.
pub open spec fn all_nestable(ms: Seq<Matcher>) -> bool {
    forall|i: int| 0 <= i < ms.len() ==> (#[trigger] ms[i]).nestable()
}

/// Validates a matcher nested inside a selector or gap constraint.
pub fn nested(matcher: Matcher) -> (r: MatchPattern)
    requires
        matcher.nestable(),
    ensures
        r.spec_steps() == matcher.spec_steps(),
        r.spec_predicates() == matcher.spec_predicates(),
        chain_valid(r.spec_steps()),
{
    matcher.pattern
}

fn nested_all(matchers: Vec<Matcher>) -> (r: Vec<MatchPattern>)
    requires
        all_nestable(matchers@),
    ensures
        r@.len() == matchers@.len(),
        all_patterns_valid(r@),
        forall|i: int| 0 <= i < r@.len() ==> #[trigger] r@[i].spec_steps() == matchers@[i].spec_steps(),
        patterns_predicates(r@) == matchers_predicates(matchers@),
{
    let ghost original = matchers@;
    let mut matchers = matchers;
    let mut out: Vec<MatchPattern> = Vec::new();
    while matchers.len() > 0
        invariant
            out@.len() + matchers@.len() == original.len(),
            forall|j: int| 0 <= j < matchers@.len() ==> #[trigger] matchers@[j] == original[out@.len() + j],
            all_nestable(original),
            all_patterns_valid(out@),
            forall|i: int| 0 <= i < out@.len() ==> #[trigger] out@[i].spec_steps() == original[i].spec_steps(),
            patterns_predicates(out@) == matchers_predicates(original.take(out@.len() as int)),
        decreases matchers.len(),
    {
        let ghost rest = matchers@;
        let ghost before = out@;
        assert(rest[0] == original[(out@.len() + 0) as int]);
        let m = matchers.remove(0);
        assert(original[out@.len() as int].nestable());
        let p = nested(m);
        out.push(p);
        proof {
            assert(out@.drop_last() =~= before);
            assert(original.take(out@.len() as int).drop_last() =~= original.take(before.len() as int));
            assert forall|j: int| 0 <= j < matchers@.len() implies #[trigger] matchers@[j] == original[(out@.len() + j) as int] by {
                assert(matchers@[j] == rest[j + 1]);
            }
        }
    }
    assert(original.take(original.len() as int) =~= original);
    out
}

/// What [`Matcher::build`] compiled.
pub enum MatcherBuild {
    /// A lone selector (with its predicate) needs no ancestry tracking.
    Single(SingleBuild),
    /// A chain compiled into an engine, whose root chain carries the callbacks.
    Chain(ChainBuild),
}

pub struct SingleBuild {
    pub selector: String,
    pub predicate: Option<Box<dyn Predicate>>,
    pub has_predicate: bool,
    pub callbacks: Callbacks,
}

pub struct ChainBuild {
    pub engine: Engine,
    pub root: ChainId,
    pub callbacks: Callbacks,
}

/// Whether text and comments count for a lone selector with a predicate: only inside an
/// element that passed the predicate, from its start until its end tag.
pub struct PredicateScope {
    pub active: bool,
}

/// What to do at the start of an element that the selector matched.
pub struct ScopeStart {
    /// Run the per-element callback.
    pub report: bool,
    /// Watch the element's end tag, which ends the scope.
    pub watch_end: bool,
}

impl PredicateScope {
    pub fn new() -> (r: PredicateScope)
        ensures
            !r.active,
    {
        PredicateScope { active: false }
    }

    /// An element matched by the selector starts; `passed` is the predicate's answer and
    /// `tracks_end` whether text or comments are observed.
    pub fn start(&mut self, passed: bool, tracks_end: bool) -> (r: ScopeStart)
        ensures
            final(self).active == passed,
            r.report == passed,
            r.watch_end == (passed && tracks_end),
    {
        self.active = passed;
        ScopeStart { report: passed, watch_end: passed && tracks_end }
    }

    /// The end tag of a passing element: the scope ends.
    pub fn end(&mut self)
        ensures
            !final(self).active,
    {
        self.active = false;
    }

    /// Whether a text chunk or comment counts now.
    pub fn counts(&self) -> (r: bool)
        ensures
            r == self.active,
    {
        self.active
    }
}

impl Matcher {
    pub closed spec fn spec_steps(&self) -> Seq<StepM> {
        self.pattern.spec_steps()
    }

    pub closed spec fn spec_callbacks(&self) -> Callbacks {
        self.callbacks
    }

    /// The predicates of the filters, in the order of the filters (nested chains
    /// included, depth first).
    pub closed spec fn spec_predicates(&self) -> Seq<Box<dyn Predicate>> {
        self.pattern.spec_predicates()
    }

    /// A complete chain without callbacks.
    pub open spec fn nestable(&self) -> bool {
        chain_valid(self.spec_steps()) && self.spec_callbacks().spec_none()
    }

    /// Selectors can still be added: no callback is registered yet.
    pub open spec fn open_for_selectors(&self) -> bool {
        self.spec_callbacks().spec_none()
    }

    /// The last step is `direct()`.
    pub open spec fn ends_with_direct(&self) -> bool {
        self.spec_steps().len() > 0 && self.spec_steps().last() is Direct
    }

    /// Creates a new [`Matcher`] builder.
    pub fn new() -> (r: Matcher)
        ensures
            r.spec_steps() == Seq::<StepM>::empty(),
            r.spec_callbacks().spec_none(),
            r.spec_predicates() == Seq::<Box<dyn Predicate>>::empty(),
    {
        Matcher {
            pattern: MatchPattern::new(),
            callbacks: Callbacks { each: false, text_chunk: false, text: false, comment: false },
        }
    }

    /// Selects elements matching `selector` that also satisfy `predicate`.
    pub fn filter<F: Fn(&ElementView) -> bool + 'static>(self, selector: &str, predicate: F) -> (r: Matcher)
        requires
            self.open_for_selectors(),
        ensures
            r.spec_steps() == self.spec_steps().push(StepM::Filter(selector@, true)),
            r.spec_callbacks() == self.spec_callbacks(),
            r.spec_predicates().len() == self.spec_predicates().len() + 1,
            r.spec_predicates().drop_last() == self.spec_predicates(),
            forall|e: &ElementView| #[trigger] r.spec_predicates().last().ready(e) == call_requires(predicate, (e,)),
            forall|e: &ElementView, b: bool| #[trigger] r.spec_predicates().last().answers(e, b) == call_ensures(predicate, (e,), b),
    {
        Matcher { pattern: self.pattern.filter(selector, predicate), callbacks: self.callbacks }
    }

    /// Selects all elements matching `selector`.
    pub fn css(self, selector: &str) -> (r: Matcher)
        requires
            self.open_for_selectors(),
        ensures
            r.spec_steps() == self.spec_steps().push(StepM::Filter(selector@, false)),
            r.spec_callbacks() == self.spec_callbacks(),
            r.spec_predicates() == self.spec_predicates(),
    {
        Matcher { pattern: self.pattern.css(selector), callbacks: self.callbacks }
    }

    /// Selects elements that `matcher` does not match, like the `:not()` pseudo-class.
    pub fn not(self, matcher: Matcher) -> (r: Matcher)
        requires
            self.open_for_selectors(),
            matcher.nestable(),
        ensures
            r.spec_steps() == self.spec_steps().push(StepM::Not(matcher.spec_steps())),
            r.spec_callbacks() == self.spec_callbacks(),
            r.spec_predicates() == self.spec_predicates() + matcher.spec_predicates(),
    {
        let inner = nested(matcher);
        Matcher { pattern: self.pattern.not(inner), callbacks: self.callbacks }
    }

    /// Selects elements that all of the `matchers` match.
    pub fn every(self, matchers: Vec<Matcher>) -> (r: Matcher)
        requires
            self.open_for_selectors(),
            matchers.len() > 0,
            all_nestable(matchers@),
        ensures
            r.spec_steps() == self.spec_steps().push(StepM::Every(matchers_view(matchers@))),
            r.spec_callbacks() == self.spec_callbacks(),
            r.spec_predicates() == self.spec_predicates() + matchers_predicates(matchers@),
    {
        let ghost mv = matchers_view(matchers@);
        let patterns = nested_all(matchers);
        let r = Matcher { pattern: self.pattern.every(patterns), callbacks: self.callbacks };
        assert(super::match_pattern::patterns_view(patterns@) =~= mv);
        r
    }

    /// Selects elements that at least one of the `matchers` matches.
    pub fn any(self, matchers: Vec<Matcher>) -> (r: Matcher)
        requires
            self.open_for_selectors(),
            matchers.len() > 0,
            all_nestable(matchers@),
        ensures
            r.spec_steps() == self.spec_steps().push(StepM::Any(matchers_view(matchers@))),
            r.spec_callbacks() == self.spec_callbacks(),
            r.spec_predicates() == self.spec_predicates() + matchers_predicates(matchers@),
    {
        let ghost mv = matchers_view(matchers@);
        let patterns = nested_all(matchers);
        let r = Matcher { pattern: self.pattern.any(patterns), callbacks: self.callbacks };
        assert(super::match_pattern::patterns_view(patterns@) =~= mv);
        r
    }

    /// Constrains the gap before the next selector to contain no element matched by
    /// `matcher`. The gap may be empty.
    pub fn gap_without(self, matcher: Matcher) -> (r: Matcher)
        requires
            self.open_for_selectors(),
            !self.ends_with_direct(),
            matcher.nestable(),
        ensures
            r.spec_steps() == self.spec_steps().push(StepM::GapWithout(matcher.spec_steps())),
            r.spec_callbacks() == self.spec_callbacks(),
            r.spec_predicates() == self.spec_predicates() + matcher.spec_predicates(),
    {
        let inner = nested(matcher);
        Matcher { pattern: self.pattern.gap_without(inner), callbacks: self.callbacks }
    }

    /// Constrains the gap before the next selector to contain at least one match for
    /// every nested matcher, in any order.
    pub fn gap_with_every(self, matchers: Vec<Matcher>) -> (r: Matcher)
        requires
            self.open_for_selectors(),
            !self.ends_with_direct(),
            matchers.len() > 0,
            all_nestable(matchers@),
        ensures
            r.spec_steps() == self.spec_steps().push(StepM::GapWithEvery(matchers_view(matchers@))),
            r.spec_callbacks() == self.spec_callbacks(),
            r.spec_predicates() == self.spec_predicates() + matchers_predicates(matchers@),
    {
        let ghost mv = matchers_view(matchers@);
        let patterns = nested_all(matchers);
        let r = Matcher { pattern: self.pattern.gap_with_every(patterns), callbacks: self.callbacks };
        assert(super::match_pattern::patterns_view(patterns@) =~= mv);
        r
    }

    /// Constrains the gap before the next selector to contain at least one match for
    /// any of the nested matchers.
    pub fn gap_with_any(self, matchers: Vec<Matcher>) -> (r: Matcher)
        requires
            self.open_for_selectors(),
            !self.ends_with_direct(),
            matchers.len() > 0,
            all_nestable(matchers@),
        ensures
            r.spec_steps() == self.spec_steps().push(StepM::GapWithAny(matchers_view(matchers@))),
            r.spec_callbacks() == self.spec_callbacks(),
            r.spec_predicates() == self.spec_predicates() + matchers_predicates(matchers@),
    {
        let ghost mv = matchers_view(matchers@);
        let patterns = nested_all(matchers);
        let r = Matcher { pattern: self.pattern.gap_with_any(patterns), callbacks: self.callbacks };
        assert(super::match_pattern::patterns_view(patterns@) =~= mv);
        r
    }

    /// Requires the next selector to match a direct child, like the `>` CSS combinator.
    pub fn direct(self) -> (r: Matcher)
        requires
            self.open_for_selectors(),
            self.spec_steps().len() > 0,
            is_element(self.spec_steps().last()),
        ensures
            r.spec_steps() == self.spec_steps().push(StepM::Direct),
            r.spec_callbacks() == self.spec_callbacks(),
            r.spec_predicates() == self.spec_predicates(),
    {
        Matcher { pattern: self.pattern.direct(), callbacks: self.callbacks }
    }

    /// Registers the per-element callback of the whole chain.
    pub fn on_each(self) -> (r: Matcher)
        requires
            self.spec_steps().len() > 0,
            !self.spec_callbacks().each,
        ensures
            r.spec_steps() == self.spec_steps(),
            r.spec_predicates() == self.spec_predicates(),
            r.spec_callbacks() == (Callbacks { each: true, ..self.spec_callbacks() }),
    {
        Matcher { pattern: self.pattern, callbacks: Callbacks { each: true, ..self.callbacks } }
    }

    /// Registers the per-text-chunk callback of the whole chain.
    pub fn on_text_chunk(self) -> (r: Matcher)
        requires
            self.spec_steps().len() > 0,
            !self.spec_callbacks().text_chunk,
        ensures
            r.spec_steps() == self.spec_steps(),
            r.spec_predicates() == self.spec_predicates(),
            r.spec_callbacks() == (Callbacks { text_chunk: true, ..self.spec_callbacks() }),
    {
        Matcher { pattern: self.pattern, callbacks: Callbacks { text_chunk: true, ..self.callbacks } }
    }

    /// Registers the aggregated-text callback of the whole chain.
    pub fn on_text(self) -> (r: Matcher)
        requires
            self.spec_steps().len() > 0,
            !self.spec_callbacks().text,
        ensures
            r.spec_steps() == self.spec_steps(),
            r.spec_predicates() == self.spec_predicates(),
            r.spec_callbacks() == (Callbacks { text: true, ..self.spec_callbacks() }),
    {
        Matcher { pattern: self.pattern, callbacks: Callbacks { text: true, ..self.callbacks } }
    }

    /// Registers the comment callback of the whole chain.
    pub fn on_comment(self) -> (r: Matcher)
        requires
            self.spec_steps().len() > 0,
            !self.spec_callbacks().comment,
        ensures
            r.spec_steps() == self.spec_steps(),
            r.spec_predicates() == self.spec_predicates(),
            r.spec_callbacks() == (Callbacks { comment: true, ..self.spec_callbacks() }),
    {
        Matcher { pattern: self.pattern, callbacks: Callbacks { comment: true, ..self.callbacks } }
    }

    /// The registered callbacks.
    pub fn callbacks(&self) -> (r: Callbacks)
        ensures
            r == self.spec_callbacks(),
    {
        self.callbacks
    }

    /// The steps added so far.
    pub fn steps(&self) -> (r: &[Step])
        ensures
            steps_view(r@) == self.spec_steps(),
    {
        self.pattern.steps()
    }

    /// Whether the chain is complete: non-empty and not ending on a gap.
    pub fn is_complete(&self) -> (r: bool)
        ensures
            r == chain_valid(self.spec_steps()),
    {
        self.pattern.validate()
    }

    /// Compiles the matcher. A lone selector without an aggregated-text callback stays a
    /// plain selector; anything else becomes an engine whose last chain carries the
    /// callbacks.
    pub fn build(self) -> (r: MatcherBuild)
        requires
            !self.spec_callbacks().spec_none(),
            chain_valid(self.spec_steps()),
        ensures
            (!self.spec_callbacks().text && self.spec_steps().len() == 1 && self.spec_steps()[0] is Filter)
                <==> r is Single,
            r matches MatcherBuild::Single(s) ==> {
                &&& self.spec_steps()[0] == StepM::Filter(s.selector@, s.has_predicate)
                &&& s.callbacks == self.spec_callbacks()
                &&& s.has_predicate ==> self.spec_predicates().len() == 1
                &&& s.predicate == if s.has_predicate {
                    Some(self.spec_predicates()[0])
                } else {
                    None
                }
            },
            r matches MatcherBuild::Chain(c) ==> {
                &&& c.engine.wf()
                &&& c.root == c.engine.spec_chain_count() - 1
                &&& c.engine.spec_chain_pattern(c.root as int) == chain_pattern(self.spec_steps())
                &&& c.engine.spec_program().chains@[c.root as int].steps@ == self.spec_steps()
                &&& assigns(Seq::empty(), c.engine.spec_program().leaves@, self.spec_predicates(), steps_flags(self.spec_steps()))
                &&& c.callbacks == self.spec_callbacks()
                &&& c.engine.spec_bindings()[c.root as int] == (ChainBindings {
                    on_match: self.spec_callbacks().each,
                    on_enter: false,
                    on_exit: false,
                    on_text_chunk: self.spec_callbacks().text_chunk,
                    on_text: self.spec_callbacks().text,
                    on_comment: self.spec_callbacks().comment,
                })
            },
    {
        let callbacks = self.callbacks;
        let ghost steps_model = self.spec_steps();
        let (steps, predicates) = self.pattern.into_parts();
        let single = !callbacks.text && steps.len() == 1 && match &steps[0] {
            Step::Filter(_, _) => true,
            _ => false,
        };
        if single {
            let mut steps = steps;
            let mut predicates = predicates;
            let first = steps.remove(0);
            match first {
                Step::Filter(selector, has_predicate) => {
                    proof {
                        assert(steps_model.drop_first() =~= Seq::<StepM>::empty());
                        assert(steps_model[0] == StepM::Filter(selector@, has_predicate));
                        assert(super::step::steps_predicates(steps_model) == super::step::step_predicates(steps_model[0])
                            + super::step::steps_predicates(steps_model.drop_first()));
                    }
                    let predicate = if has_predicate {
                        predicates.pop()
                    } else {
                        None
                    };
                    MatcherBuild::Single(SingleBuild { selector, predicate, has_predicate, callbacks })
                },
                _ => {
                    assert(false);
                    MatcherBuild::Single(SingleBuild { selector: String::new(), predicate: None, has_predicate: false, callbacks })
                },
            }
        } else {
            let mut engine = Engine::new();
            let root = engine.add_chain(steps, predicates);
            proof {
                engine.lemma_bindings_len();
            }
            assert(!engine.spec_bindings()[root as int].spec_has_lifecycle());
            if callbacks.each {
                engine.on_match(root);
            }
            if callbacks.text_chunk {
                engine.on_text_chunk(root);
            }
            if callbacks.text {
                engine.on_text(root);
            }
            if callbacks.comment {
                engine.on_comment(root);
            }
            proof {
                engine.lemma_bindings_len();
            }
            assert(engine.spec_bindings()[root as int] == (ChainBindings {
                on_match: callbacks.each,
                on_enter: false,
                on_exit: false,
                on_text_chunk: callbacks.text_chunk,
                on_text: callbacks.text,
                on_comment: callbacks.comment,
            }));
            MatcherBuild::Chain(ChainBuild { engine, root, callbacks })
        }
    }
}

} // verus!
