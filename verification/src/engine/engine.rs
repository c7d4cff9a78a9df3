//! Chain bindings and the streaming runtime that decides, per document event, which
//! chains match and which callbacks run.
//!
//! The driver feeds events in document order: for each element start, the leaf hits
//! (`set_hit`) and then `enter`; for each end tag, `exit` with the token that `enter`
//! returned; for text and comments, `text_chunk` and `comment`.

use vstd::prelude::*;
use crate::matcher::step::{chain_valid, steps_flags, steps_view, Predicate, Step};
use crate::regex_lang::{lang, lemma_accepts_lang};
use crate::regex_spec::{
    accepts, derive_word, lemma_accepts_derive_word, lemma_derive_word_push, re_nullable,
    spec_derivative, Re,
};
use super::program::{test_refs_below, CompiledChain, Leaf, Program, Test};
use super::symbol::{holds_seq, lemma_holds_frame, symbol, symbol_of};

verus! {

broadcast use vstd::std_specs::vec::group_vec_axioms;

/// One open match of one chain.
pub type InstanceId = u64;

/// Index of a compiled ancestry chain in an [`Engine`].
pub type ChainId = usize;

/// Which callbacks a chain has.
#[derive(Debug, Clone, Copy, PartialEq, Eq, Structural)]
pub struct ChainBindings {
    pub on_match: bool,
    pub on_enter: bool,
    pub on_exit: bool,
    pub on_text_chunk: bool,
    pub on_text: bool,
    pub on_comment: bool,
}

impl ChainBindings {
    pub open spec fn spec_has_lifecycle(self) -> bool {
        self.on_match || self.on_enter || self.on_exit || self.on_text_chunk || self.on_text
            || self.on_comment
    }

    pub open spec fn spec_track_text(self) -> bool {
        self.on_text_chunk || self.on_text
    }

    /// No callbacks.
    pub fn none() -> (r: ChainBindings)
        ensures
            !r.spec_has_lifecycle(),
            !r.on_match && !r.on_enter && !r.on_exit && !r.on_text_chunk && !r.on_text && !r.on_comment,
    {
        ChainBindings {
            on_match: false,
            on_enter: false,
            on_exit: false,
            on_text_chunk: false,
            on_text: false,
            on_comment: false,
        }
    }

    /// Whether a match of the chain opens an instance.
    pub fn has_lifecycle(&self) -> (r: bool)
        ensures
            r == self.spec_has_lifecycle(),
    {
        self.on_match || self.on_enter || self.on_exit || self.on_text_chunk || self.on_text
            || self.on_comment
    }

    /// Whether text inside a match is observed.
    pub fn track_text(&self) -> (r: bool)
        ensures
            r == self.spec_track_text(),
    {
        self.on_text_chunk || self.on_text
    }
}

/// Compiles ancestry chains and records which callbacks each chain has.
pub struct Engine {
    program: Program,
    bindings: Vec<ChainBindings>,
}

impl Engine {
    pub closed spec fn wf(&self) -> bool {
        &&& self.program.wf()
        &&& self.bindings@.len() == self.program.chains@.len()
    }

    pub closed spec fn spec_chain_count(&self) -> nat {
        self.program.chains@.len()
    }

    pub closed spec fn spec_bindings(&self) -> Seq<ChainBindings> {
        self.bindings@
    }

    /// The pattern chain `chain` compiled to.
    pub closed spec fn spec_chain_pattern(&self, chain: int) -> Re {
        self.program.chains@[chain].regexp.state_re(0)
    }

    /// The compiled program: chains with their tests and steps, and the leaf selectors.
    pub closed spec fn spec_program(&self) -> Program {
        self.program
    }

    /// Every compiled chain has exactly one set of bindings, and the program's chains
    /// are the engine's, each with its tests following its steps.
    pub proof fn lemma_bindings_len(&self)
        requires
            self.wf(),
        ensures
            self.spec_bindings().len() == self.spec_chain_count(),
            self.spec_program().wf(),
            self.spec_program().chains@.len() == self.spec_chain_count(),
            forall|i: int| 0 <= i < self.spec_chain_count() ==> #[trigger] self.spec_chain_pattern(i) == self.spec_program().chains@[i].regexp.state_re(0),
    {
    }

    pub fn new() -> (r: Engine)
        ensures
            r.wf(),
            r.spec_chain_count() == 0,
            r.spec_program().leaves@.len() == 0,
    {
        Engine { program: Program::new(), bindings: Vec::new() }
    }

    /// Compiles `steps` into a chain and returns its id. `predicates` are the predicates
    /// of the filters that have one, in filter order.
    #[verifier::loop_isolation(false)]
    pub fn add_chain(&mut self, steps: Vec<Step>, predicates: Vec<Box<dyn Predicate>>) -> (r: ChainId)
        requires
            old(self).wf(),
            chain_valid(steps_view(steps@)),
        ensures
            final(self).wf(),
            r < final(self).spec_chain_count(),
            r == final(self).spec_chain_count() - 1,
            final(self).spec_chain_count() > old(self).spec_chain_count(),
            final(self).spec_chain_pattern(r as int) == super::program::chain_pattern(steps_view(steps@)),
            final(self).spec_program().wf(),
            final(self).spec_program().extends(&old(self).spec_program()),
            final(self).spec_program().chains@[r as int].steps@ == steps_view(steps@),
            super::program::assigns(old(self).spec_program().leaves@, final(self).spec_program().leaves@, predicates@, steps_flags(steps_view(steps@))),
            forall|i: int| 0 <= i < old(self).spec_chain_count() ==> #[trigger] final(self).spec_bindings()[i] == old(self).spec_bindings()[i],
            forall|i: int| old(self).spec_chain_count() <= i < final(self).spec_chain_count() ==> !(#[trigger] final(self).spec_bindings()[i]).spec_has_lifecycle(),
    {
        let mut predicates = predicates;
        let id = self.program.add(steps, &mut predicates);
        let ghost program_after = self.program;
        while self.bindings.len() < self.program.chains.len()
            invariant
                self.program == program_after,
                self.program.wf(),
                self.bindings@.len() <= self.program.chains@.len(),
                old(self).bindings@.len() <= self.bindings@.len(),
                forall|i: int| 0 <= i < old(self).bindings@.len() ==> #[trigger] self.bindings@[i] == old(self).bindings@[i],
                forall|i: int| old(self).bindings@.len() <= i < self.bindings@.len() ==> !(#[trigger] self.bindings@[i]).spec_has_lifecycle(),
            decreases self.program.chains@.len() - self.bindings@.len(),
        {
            self.bindings.push(ChainBindings::none());
        }
        id
    }

    fn binding(&mut self, chain: ChainId, bindings: ChainBindings)
        requires
            old(self).wf(),
            chain < old(self).spec_chain_count(),
        ensures
            final(self).wf(),
            final(self).spec_chain_count() == old(self).spec_chain_count(),
            final(self).spec_bindings() == old(self).spec_bindings().update(chain as int, bindings),
            forall|i: int| 0 <= i < final(self).spec_chain_count() ==> #[trigger] final(self).spec_chain_pattern(i) == old(self).spec_chain_pattern(i),
            final(self).spec_program() == old(self).spec_program(),
    {
        self.bindings.set(chain, bindings);
    }

    /// Runs the per-element callback once for each element matched by `chain`.
    pub fn on_match(&mut self, chain: ChainId)
        requires
            old(self).wf(),
            chain < old(self).spec_chain_count(),
        ensures
            final(self).wf(),
            final(self).spec_chain_count() == old(self).spec_chain_count(),
            final(self).spec_bindings() == old(self).spec_bindings().update(
                chain as int,
                ChainBindings { on_match: true, ..old(self).spec_bindings()[chain as int] },
            ),
            forall|i: int| 0 <= i < final(self).spec_chain_count() ==> #[trigger] final(self).spec_chain_pattern(i) == old(self).spec_chain_pattern(i),
            final(self).spec_program() == old(self).spec_program(),
    {
        let b = ChainBindings { on_match: true, ..self.bindings[chain] };
        self.binding(chain, b);
    }

    /// Reports each match of `chain` with its instance id, node id and depth.
    pub fn on_enter(&mut self, chain: ChainId)
        requires
            old(self).wf(),
            chain < old(self).spec_chain_count(),
        ensures
            final(self).wf(),
            final(self).spec_chain_count() == old(self).spec_chain_count(),
            final(self).spec_bindings() == old(self).spec_bindings().update(
                chain as int,
                ChainBindings { on_enter: true, ..old(self).spec_bindings()[chain as int] },
            ),
            forall|i: int| 0 <= i < final(self).spec_chain_count() ==> #[trigger] final(self).spec_chain_pattern(i) == old(self).spec_chain_pattern(i),
            final(self).spec_program() == old(self).spec_program(),
    {
        let b = ChainBindings { on_enter: true, ..self.bindings[chain] };
        self.binding(chain, b);
    }

    /// Reports when a matched instance of `chain` ends.
    pub fn on_exit(&mut self, chain: ChainId)
        requires
            old(self).wf(),
            chain < old(self).spec_chain_count(),
        ensures
            final(self).wf(),
            final(self).spec_chain_count() == old(self).spec_chain_count(),
            final(self).spec_bindings() == old(self).spec_bindings().update(
                chain as int,
                ChainBindings { on_exit: true, ..old(self).spec_bindings()[chain as int] },
            ),
            forall|i: int| 0 <= i < final(self).spec_chain_count() ==> #[trigger] final(self).spec_chain_pattern(i) == old(self).spec_chain_pattern(i),
            final(self).spec_program() == old(self).spec_program(),
    {
        let b = ChainBindings { on_exit: true, ..self.bindings[chain] };
        self.binding(chain, b);
    }

    /// Reports each text chunk inside elements matched by `chain`.
    pub fn on_text_chunk(&mut self, chain: ChainId)
        requires
            old(self).wf(),
            chain < old(self).spec_chain_count(),
        ensures
            final(self).wf(),
            final(self).spec_chain_count() == old(self).spec_chain_count(),
            final(self).spec_bindings() == old(self).spec_bindings().update(
                chain as int,
                ChainBindings { on_text_chunk: true, ..old(self).spec_bindings()[chain as int] },
            ),
            forall|i: int| 0 <= i < final(self).spec_chain_count() ==> #[trigger] final(self).spec_chain_pattern(i) == old(self).spec_chain_pattern(i),
            final(self).spec_program() == old(self).spec_program(),
    {
        let b = ChainBindings { on_text_chunk: true, ..self.bindings[chain] };
        self.binding(chain, b);
    }

    /// Reports once per matched element the combined descendant text.
    pub fn on_text(&mut self, chain: ChainId)
        requires
            old(self).wf(),
            chain < old(self).spec_chain_count(),
        ensures
            final(self).wf(),
            final(self).spec_chain_count() == old(self).spec_chain_count(),
            final(self).spec_bindings() == old(self).spec_bindings().update(
                chain as int,
                ChainBindings { on_text: true, ..old(self).spec_bindings()[chain as int] },
            ),
            forall|i: int| 0 <= i < final(self).spec_chain_count() ==> #[trigger] final(self).spec_chain_pattern(i) == old(self).spec_chain_pattern(i),
            final(self).spec_program() == old(self).spec_program(),
    {
        let b = ChainBindings { on_text: true, ..self.bindings[chain] };
        self.binding(chain, b);
    }

    /// Reports each comment inside elements matched by `chain`.
    pub fn on_comment(&mut self, chain: ChainId)
        requires
            old(self).wf(),
            chain < old(self).spec_chain_count(),
        ensures
            final(self).wf(),
            final(self).spec_chain_count() == old(self).spec_chain_count(),
            final(self).spec_bindings() == old(self).spec_bindings().update(
                chain as int,
                ChainBindings { on_comment: true, ..old(self).spec_bindings()[chain as int] },
            ),
            forall|i: int| 0 <= i < final(self).spec_chain_count() ==> #[trigger] final(self).spec_chain_pattern(i) == old(self).spec_chain_pattern(i),
            final(self).spec_program() == old(self).spec_program(),
    {
        let b = ChainBindings { on_comment: true, ..self.bindings[chain] };
        self.binding(chain, b);
    }

    /// The bindings of every chain.
    pub fn bindings(&self) -> (r: Vec<ChainBindings>)
        ensures
            r@ == self.spec_bindings(),
    {
        let mut out: Vec<ChainBindings> = Vec::new();
        let mut i: usize = 0;
        while i < self.bindings.len()
            invariant
                i <= self.bindings@.len(),
                out@ =~= self.bindings@.take(i as int),
            decreases self.bindings@.len() - i,
        {
            out.push(self.bindings[i]);
            i += 1;
        }
        assert(self.bindings@.take(self.bindings@.len() as int) =~= self.bindings@);
        out
    }

    /// Consumes the engine: the runtime that tracks matches, and the leaf selectors whose
    /// hits the driver reports through [`Runtime::set_hit`].
    #[verifier::loop_isolation(false)]
    pub fn into_runtime(self) -> (r: (Runtime, Vec<Leaf>))
        requires
            self.wf(),
        ensures
            r.0.wf(),
            r.0.spec_chain_count() == self.spec_chain_count(),
            r.0.spec_leaf_count() == r.1@.len(),
            r.0.spec_bindings() == self.spec_bindings(),
            r.0.spec_depth() == 0,
            forall|i: int| 0 <= i < r.0.spec_chain_count() ==> #[trigger] r.0.chain_re(i) == self.spec_chain_pattern(i),
            forall|i: int| 0 <= i < r.0.spec_chain_count() ==> #[trigger] r.0.spec_pattern(i) == self.spec_chain_pattern(i),
            r.0.spec_ancestry().len() == r.0.spec_chain_count(),
            forall|i: int| 0 <= i < r.0.spec_chain_count() ==> #[trigger] r.0.spec_ancestry()[i] == Seq::<Seq<u64>>::empty(),
            forall|i: int| 0 <= i < r.0.spec_chain_count() ==> !(#[trigger] r.0.spec_matched()[i]),
            r.1@ == self.spec_program().leaves@,
            forall|i: int| 0 <= i < r.0.spec_chain_count() ==> #[trigger] r.0.spec_tests(i) == self.spec_program().chains@[i].tests@,
            r.0.spec_next_node_id() == 0,
            r.0.spec_next_instance_id() == 0,
            forall|i: int| 0 <= i < r.0.spec_chain_count() ==> #[trigger] r.0.spec_chain_operations(i) == self.spec_program().chains@[i].regexp.spec_operations(),
            r.0.spec_text_chunks().len() == 0,
            forall|i: int| 0 <= i < r.0.spec_chain_count() ==> (#[trigger] r.0.spec_open_instances(i)).len() == 0,
            forall|i: int| 0 <= i < r.0.spec_chain_count() ==> (#[trigger] r.0.spec_text_starts(i)).len() == 0,
    {
        let Engine { program, bindings } = self;
        let Program { chains, leaves } = program;
        let n = chains.len();
        let mut hits: Vec<bool> = Vec::new();
        while hits.len() < leaves.len()
            invariant
                hits@.len() <= leaves@.len(),
                forall|j: int| 0 <= j < hits@.len() ==> !hits@[j],
            decreases leaves@.len() - hits@.len(),
        {
            hits.push(false);
        }
        let mut matched: Vec<bool> = Vec::new();
        let mut regexp_states: Vec<usize> = Vec::new();
        let mut chain_states: Vec<ChainState> = Vec::new();
        let mut i: usize = 0;
        while i < n
            invariant
                n == chains@.len(),
                i <= n,
                matched@.len() == i,
                regexp_states@.len() == i,
                chain_states@.len() == i,
                forall|j: int| 0 <= j < i ==> !matched@[j],
                forall|j: int| 0 <= j < i ==> #[trigger] regexp_states@[j] == 0,
                forall|j: int| 0 <= j < i ==> regexp_states@[j] < (#[trigger] chains@[j]).regexp.num_states(),
                forall|j: int| 0 <= j < i ==> (#[trigger] chain_states@[j]).text_starts@.len() == 0,
                forall|j: int|
                    0 <= j < i ==> {
                        &&& (#[trigger] chain_states@[j]).open_instances@.len() == 0
                        &&& chain_states@[j].text_open == 0
                        &&& chain_states@[j].comment_open == 0
                    },
            decreases n - i,
        {
            matched.push(false);
            proof {
                chains@[i as int].regexp.lemma_has_start();
            }
            regexp_states.push(chains[i].regexp.start_state());
            chain_states.push(ChainState::new());
            i += 1;
        }
        let mut depth_slots: Vec<DepthSlot> = Vec::new();
        depth_slots.push(DepthSlot {});
        let runtime = Runtime {
            chains,
            bindings,
            hits,
            matched,
            regexp_states,
            depth: 0,
            next_instance_id: 0,
            next_node_id: 0,
            depth_slots,
            text_chunks: Vec::new(),
            chain_states,
            ancestry: Ghost(Seq::new(n as nat, |i: int| Seq::empty())),
        };
        (runtime, leaves)
    }
}

/// Per-depth bookkeeping slot (sibling summaries and subscriptions land here later).
#[derive(Debug, Clone, Copy, PartialEq, Eq, Structural)]
pub struct DepthSlot {}

/// Open-match bookkeeping of one chain.
#[derive(Debug)]
pub struct ChainState {
    /// Still-open matches of this chain that observe text.
    pub text_open: u64,
    /// For each open aggregated-text match (outermost first): start index into the text chunks.
    pub text_starts: Vec<usize>,
    /// Still-open matches of this chain that observe comments.
    pub comment_open: u64,
    /// Open instance ids of this chain (outermost first).
    pub open_instances: Vec<InstanceId>,
}

impl ChainState {
    /// The open instances are increasing ids below `next`; the counters count the open
    /// instances that observe text and comments; each aggregated-text match has a start
    /// within the `chunks` stored text chunks.
    pub open spec fn consistent(&self, b: ChainBindings, next: u64, chunks: nat) -> bool {
        let n = self.open_instances@.len();
        &&& forall|p: int, q: int| 0 <= p < q < n ==> self.open_instances@[p] < self.open_instances@[q]
        &&& forall|p: int| 0 <= p < n ==> self.open_instances@[p] < next
        &&& self.text_open == if b.spec_track_text() { n } else { 0 }
        &&& self.text_starts@.len() == if b.on_text { n } else { 0 }
        &&& self.comment_open == if b.on_comment { n } else { 0 }
        &&& forall|k: int| 0 <= k < self.text_starts@.len() ==> self.text_starts@[k] <= chunks
    }

    pub fn new() -> (r: ChainState)
        ensures
            r.text_open == 0,
            r.comment_open == 0,
            r.text_starts@.len() == 0,
            r.open_instances@.len() == 0,
    {
        ChainState { text_open: 0, text_starts: Vec::new(), comment_open: 0, open_instances: Vec::new() }
    }
}

/// One chain match reported by [`Runtime::enter`].
#[derive(Debug, Clone, Copy, PartialEq, Eq, Structural)]
pub struct Activation {
    pub chain: ChainId,
    pub instance: InstanceId,
    /// The node id of the element, shared by every chain that matches it.
    pub node_id: u64,
    /// The nesting depth of the element (top-level elements are at depth 1).
    pub depth: u32,
    /// The element has no end tag: the instance ends right after it starts.
    pub exit_now: bool,
}

/// What ending an element undoes: the ancestry state before it, and the chains whose
/// instances it opened, in chain order.
pub struct ExitToken {
    parent_states: Vec<usize>,
    parent_depth: u32,
    opened: Vec<ChainId>,
    parent_ancestry: Ghost<Seq<Seq<Seq<u64>>>>,
}

impl ExitToken {
    #[verifier::type_invariant]
    spec fn inv(self) -> bool {
        forall|p: int, q: int| 0 <= p < q < self.opened@.len() ==> #[trigger] self.opened@[p] < #[trigger] self.opened@[q]
    }

    pub closed spec fn spec_parent_states(&self) -> Seq<usize> {
        self.parent_states@
    }

    pub closed spec fn spec_parent_depth(&self) -> u32 {
        self.parent_depth
    }

    pub closed spec fn spec_opened(&self) -> Seq<ChainId> {
        self.opened@
    }

    pub closed spec fn spec_parent_ancestry(&self) -> Seq<Seq<Seq<u64>>> {
        self.parent_ancestry@
    }
}

/// The outcome of one element start.
pub struct Enter {
    /// Matches of chains with callbacks, in chain order.
    pub activations: Vec<Activation>,
    /// Present when the element has an end tag: pass it to [`Runtime::exit`] then.
    pub exit: Option<ExitToken>,
}

/// One instance ended by [`Runtime::exit`].
#[derive(Debug)]
pub struct Ended {
    pub chain: ChainId,
    pub instance: Option<InstanceId>,
    /// The aggregated text, for chains with an aggregated-text callback.
    pub text: Option<String>,
}

/// Strictly increasing ids below `bound` are at most `bound` many.
proof fn lemma_increasing_below(s: Seq<u64>, bound: u64)
    requires
        forall|p: int, q: int| 0 <= p < q < s.len() ==> s[p] < s[q],
        forall|p: int| 0 <= p < s.len() ==> s[p] < bound,
    ensures
        s.len() <= bound,
    decreases s.len(),
{
    if s.len() > 0 {
        let init = s.drop_last();
        assert forall|p: int| 0 <= p < init.len() implies init[p] < s.last() by {
            assert(init[p] == s[p]);
        }
        lemma_increasing_below(init, s.last());
    }
}

/// The chains among the first `n` that match and have callbacks, in order.
pub open spec fn activated(matched: Seq<bool>, bindings: Seq<ChainBindings>, n: int) -> Seq<ChainId>
    decreases n,
{
    if n <= 0 {
        Seq::empty()
    } else if matched[n - 1] && bindings[n - 1].spec_has_lifecycle() {
        activated(matched, bindings, n - 1).push((n - 1) as usize)
    } else {
        activated(matched, bindings, n - 1)
    }
}

/// One more chain extends the activated chains by it when it matches with callbacks.
proof fn lemma_activated_step(matched: Seq<bool>, bindings: Seq<ChainBindings>, k: int)
    requires
        0 <= k < usize::MAX,
    ensures
        activated(matched, bindings, k + 1) == if matched[k] && bindings[k].spec_has_lifecycle() {
            activated(matched, bindings, k).push(k as usize)
        } else {
            activated(matched, bindings, k)
        },
        forall|c: usize| #[trigger] activated(matched, bindings, k + 1).contains(c) == (activated(matched, bindings, k).contains(c)
            || (c == k && matched[k] && bindings[k].spec_has_lifecycle())),
{
    let a = activated(matched, bindings, k);
    if matched[k] && bindings[k].spec_has_lifecycle() {
        assert forall|c: usize| #[trigger] a.push(k as usize).contains(c) == (a.contains(c) || c == k) by {
            if a.contains(c) {
                let i = choose|i: int| 0 <= i < a.len() && a[i] == c;
                assert(a.push(k as usize)[i] == c);
            }
            if c == k {
                assert(a.push(k as usize)[a.len() as int] == c);
            }
            let b = a.push(k as usize);
            if b.contains(c) && c != k {
                let i = choose|i: int| 0 <= i < b.len() && #[trigger] b[i] == c;
                assert(i < a.len());
                assert(a[i] == c);
            }
        }
    }
}

/// The activated chains are increasing and below `n`.
pub proof fn lemma_activated_increasing(matched: Seq<bool>, bindings: Seq<ChainBindings>, n: int)
    requires
        n <= usize::MAX,
    ensures
        forall|p: int, q: int| 0 <= p < q < activated(matched, bindings, n).len() ==> #[trigger] activated(matched, bindings, n)[p] < #[trigger] activated(matched, bindings, n)[q],
        forall|p: int| 0 <= p < activated(matched, bindings, n).len() ==> #[trigger] activated(matched, bindings, n)[p] < n,
        activated(matched, bindings, n).len() <= if n < 0 { 0 } else { n },
    decreases n,
{
    if n > 0 {
        lemma_activated_increasing(matched, bindings, n - 1);
        let a = activated(matched, bindings, n - 1);
        if matched[n - 1] && bindings[n - 1].spec_has_lifecycle() {
            let b = activated(matched, bindings, n);
            assert(b == a.push((n - 1) as usize));
            assert forall|p: int, q: int| 0 <= p < q < b.len() implies #[trigger] b[p] < #[trigger] b[q] by {
                if q < a.len() {
                    assert(b[p] == a[p]);
                    assert(b[q] == a[q]);
                    assert(a[p] < a[q]);
                } else {
                    assert(b[p] == a[p]);
                    assert(a[p] < n - 1);
                    assert(b[q] == n - 1);
                }
            }
        }
    }
}

/// The text gathered from chunk `start` on.
pub open spec fn text_from(chunks: Seq<String>, start: int) -> Seq<char>
    decreases chunks.len() - start,
{
    if start < 0 || start >= chunks.len() {
        Seq::empty()
    } else {
        chunks[start]@ + text_from(chunks, start + 1)
    }
}

/// The chunks' texts, concatenated in order.
pub open spec fn chunks_text(chunks: Seq<String>) -> Seq<char>
    decreases chunks.len(),
{
    if chunks.len() == 0 {
        Seq::empty()
    } else {
        chunks[0]@ + chunks_text(chunks.drop_first())
    }
}

/// Aggregated text: what an instance gets at its end, from the start that `enter`
/// recorded (the number of chunks stored then), is the chunks stored since, concatenated
/// in order.
pub proof fn law_aggregated_text(before: Seq<String>, added: Seq<String>)
    ensures
        text_from(before + added, before.len() as int) == chunks_text(added),
    decreases added.len(),
{
    let s = before + added;
    if added.len() > 0 {
        let longer = before.push(added[0]);
        let rest = added.drop_first();
        assert(s =~= longer + rest);
        assert(s[before.len() as int] == added[0]);
        law_aggregated_text(longer, rest);
    }
}

/// The chains among the first `n` whose counter is open and that have the callback.
pub open spec fn listening(open: Seq<bool>, wants: Seq<bool>, n: int) -> Seq<ChainId>
    decreases n,
{
    if n <= 0 {
        Seq::empty()
    } else if open[n - 1] && wants[n - 1] {
        listening(open, wants, n - 1).push((n - 1) as usize)
    } else {
        listening(open, wants, n - 1)
    }
}

/// The counters move as one event says: a started element takes the next node id and one
/// transition per chain; `issued` instance ids are handed out.
pub open spec fn counters_step(before: Runtime, after: Runtime, started: bool, issued: nat) -> bool {
    &&& after.spec_chain_count() == before.spec_chain_count()
    &&& after.spec_next_node_id() == before.spec_next_node_id() + if started { 1int } else { 0int }
    &&& after.spec_next_instance_id() == before.spec_next_instance_id() + issued
    &&& forall|i: int| 0 <= i < before.spec_chain_count() ==> #[trigger] after.spec_chain_operations(i) == if started && before.spec_chain_operations(i) < usize::MAX {
        before.spec_chain_operations(i) + 1
    } else {
        before.spec_chain_operations(i)
    }
}

/// Sum of a sequence of counts.
pub open spec fn total(xs: Seq<nat>) -> nat
    decreases xs.len(),
{
    if xs.len() == 0 {
        0
    } else {
        total(xs.drop_last()) + xs.last()
    }
}

/// Over a stream of events from a fresh runtime, the `k`-th runtime's next node id is the
/// number of elements started before it, its next instance id the number of instance
/// ids issued before it (so ids are issued 0, 1, 2, ... in order), and each chain has
/// taken one transition per started element (saturating at `usize::MAX`): the cost is
/// linear in the number of elements.
pub proof fn law_stream_counters(runs: Seq<Runtime>, started: Seq<bool>, issued: Seq<nat>, k: int)
    requires
        runs.len() == started.len() + 1,
        issued.len() == started.len(),
        runs[0].spec_next_node_id() == 0,
        runs[0].spec_next_instance_id() == 0,
        forall|i: int| 0 <= i < runs[0].spec_chain_count() ==> #[trigger] runs[0].spec_chain_operations(i) == 0,
        forall|j: int| 0 <= j < started.len() ==> #[trigger] counters_step(runs[j], runs[j + 1], started[j], issued[j]),
        0 <= k <= started.len(),
    ensures
        runs[k].spec_chain_count() == runs[0].spec_chain_count(),
        runs[k].spec_next_node_id() == crate::matcher::step::count_true(started.take(k)),
        runs[k].spec_next_instance_id() == total(issued.take(k)),
        forall|i: int| 0 <= i < runs[0].spec_chain_count() ==> #[trigger] runs[k].spec_chain_operations(i) == if crate::matcher::step::count_true(started.take(k)) < usize::MAX {
            crate::matcher::step::count_true(started.take(k))
        } else {
            usize::MAX as nat
        },
    decreases k,
{
    if k == 0 {
        assert(started.take(0) =~= Seq::<bool>::empty());
        assert(issued.take(0) =~= Seq::<nat>::empty());
    } else {
        law_stream_counters(runs, started, issued, k - 1);
        let j = k - 1;
        assert(counters_step(runs[j], runs[j + 1], started[j], issued[j]));
        assert(j + 1 == k);
        assert(started.take(k).drop_last() =~= started.take(k - 1));
        assert(issued.take(k).drop_last() =~= issued.take(k - 1));
    }
}

/// The number of activations handed out at each event of a stream.
pub open spec fn activation_counts(acts: Seq<Seq<Activation>>) -> Seq<nat> {
    Seq::new(acts.len(), |j: int| acts[j].len())
}

proof fn lemma_total_grows(xs: Seq<nat>, a: int, b: int)
    requires
        0 <= a <= b <= xs.len(),
    ensures
        total(xs.take(a)) <= total(xs.take(b)),
        a < b ==> total(xs.take(a)) + xs[a] <= total(xs.take(b)),
    decreases b - a,
{
    if a < b {
        assert(xs.take(a + 1).drop_last() =~= xs.take(a));
        lemma_total_grows(xs, a + 1, b);
    }
}

/// Over a stream of events from a fresh runtime, where each element start hands out its
/// activations as `Runtime::enter` does: every activation of one element (one per chain
/// that matches it) carries the same node id, the number of elements started before it,
/// and instance ids are issued 0, 1, 2, ... in order, so no two activations of the
/// stream share one.
pub proof fn law_stream_ids(runs: Seq<Runtime>, started: Seq<bool>, acts: Seq<Seq<Activation>>)
    requires
        runs.len() == started.len() + 1,
        acts.len() == started.len(),
        runs[0].spec_next_node_id() == 0,
        runs[0].spec_next_instance_id() == 0,
        forall|i: int| 0 <= i < runs[0].spec_chain_count() ==> #[trigger] runs[0].spec_chain_operations(i) == 0,
        forall|j: int| 0 <= j < started.len() ==> #[trigger] counters_step(runs[j], runs[j + 1], started[j], acts[j].len()),
        forall|j: int, k: int|
            0 <= j < acts.len() && 0 <= k < acts[j].len() ==> {
                &&& started[j]
                &&& (#[trigger] acts[j][k]).node_id == runs[j].spec_next_node_id()
                &&& acts[j][k].instance == runs[j].spec_next_instance_id() + k
            },
    ensures
        forall|j: int, k: int|
            0 <= j < acts.len() && 0 <= k < acts[j].len() ==> {
                &&& (#[trigger] acts[j][k]).node_id == crate::matcher::step::count_true(started.take(j))
                &&& acts[j][k].instance == total(activation_counts(acts).take(j)) + k
            },
        forall|j1: int, k1: int, j2: int, k2: int|
            0 <= j1 < acts.len() && 0 <= k1 < acts[j1].len() && 0 <= j2 < acts.len() && 0 <= k2 < acts[j2].len()
                && (j1 != j2 || k1 != k2) ==> #[trigger] acts[j1][k1].instance != #[trigger] acts[j2][k2].instance,
{
    let counts = activation_counts(acts);
    assert forall|j: int| 0 <= j < started.len() implies #[trigger] counters_step(runs[j], runs[j + 1], started[j], counts[j]) by {
        assert(counts[j] == acts[j].len());
    }
    assert forall|j: int, k: int| 0 <= j < acts.len() && 0 <= k < acts[j].len() implies {
        &&& (#[trigger] acts[j][k]).node_id == crate::matcher::step::count_true(started.take(j))
        &&& acts[j][k].instance == total(counts.take(j)) + k
    } by {
        law_stream_counters(runs, started, counts, j);
    }
    assert forall|j1: int, k1: int, j2: int, k2: int|
        0 <= j1 < acts.len() && 0 <= k1 < acts[j1].len() && 0 <= j2 < acts.len() && 0 <= k2 < acts[j2].len()
            && (j1 != j2 || k1 != k2) implies #[trigger] acts[j1][k1].instance != #[trigger] acts[j2][k2].instance by {
        law_stream_counters(runs, started, counts, j1);
        law_stream_counters(runs, started, counts, j2);
        if j1 < j2 {
            lemma_total_grows(counts, j1, j2);
        } else if j2 < j1 {
            lemma_total_grows(counts, j2, j1);
        }
    }
}

/// Matching progress shared by every handler of one engine.
pub struct Runtime {
    chains: Vec<CompiledChain>,
    bindings: Vec<ChainBindings>,
    /// Per leaf: whether its selector and predicate matched the element being handled.
    hits: Vec<bool>,
    /// Per chain: whether it matches the element being handled.
    matched: Vec<bool>,
    /// Per chain: the DFA state after consuming the open ancestry.
    regexp_states: Vec<usize>,
    /// Number of open elements.
    depth: u32,
    next_instance_id: InstanceId,
    next_node_id: u64,
    depth_slots: Vec<DepthSlot>,
    /// Text chunks seen under open aggregated-text matches; each chunk is stored once.
    text_chunks: Vec<String>,
    chain_states: Vec<ChainState>,
    /// Per chain: the bitsets of the open elements that its DFA state consumed, outermost first.
    ancestry: Ghost<Seq<Seq<Seq<u64>>>>,
}

impl Runtime {
    pub closed spec fn wf(&self) -> bool {
        let n = self.chains@.len();
        &&& self.bindings@.len() == n
        &&& self.matched@.len() == n
        &&& self.regexp_states@.len() == n
        &&& self.chain_states@.len() == n
        &&& self.ancestry@.len() == n
        &&& forall|i: int|
            0 <= i < n ==> (#[trigger] self.chain_states@[i]).consistent(
                self.bindings@[i],
                self.next_instance_id,
                self.text_chunks@.len(),
            )
        &&& forall|i: int|
            0 <= i < n ==> {
                &&& (#[trigger] self.chains@[i]).regexp.wf()
                &&& self.regexp_states@[i] < self.chains@[i].regexp.num_states()
                &&& self.chains@[i].regexp.state_re(self.regexp_states@[i] as int) == derive_word(
                    self.chains@[i].regexp.state_re(0),
                    self.ancestry@[i],
                )
                &&& forall|k: int|
                    0 <= k < self.chains@[i].tests@.len() ==> test_refs_below(
                        #[trigger] self.chains@[i].tests@[k],
                        i,
                        self.hits@.len() as int,
                    )
            }
    }

    pub closed spec fn spec_chain_count(&self) -> nat {
        self.chains@.len()
    }

    pub closed spec fn spec_leaf_count(&self) -> nat {
        self.hits@.len()
    }

    pub closed spec fn spec_bindings(&self) -> Seq<ChainBindings> {
        self.bindings@
    }

    pub closed spec fn spec_hits(&self) -> Seq<bool> {
        self.hits@
    }

    pub closed spec fn spec_matched(&self) -> Seq<bool> {
        self.matched@
    }

    pub closed spec fn spec_depth(&self) -> u32 {
        self.depth
    }

    pub closed spec fn spec_regexp_states(&self) -> Seq<usize> {
        self.regexp_states@
    }

    pub closed spec fn spec_next_instance_id(&self) -> u64 {
        self.next_instance_id
    }

    pub closed spec fn spec_next_node_id(&self) -> u64 {
        self.next_node_id
    }

    pub closed spec fn spec_text_chunks(&self) -> Seq<String> {
        self.text_chunks@
    }

    pub closed spec fn spec_open_instances(&self, chain: int) -> Seq<InstanceId> {
        self.chain_states@[chain].open_instances@
    }

    /// Per chain: the start of each open aggregated-text match (outermost first), as an
    /// index into the stored text chunks.
    pub closed spec fn spec_text_starts(&self, chain: int) -> Seq<usize> {
        self.chain_states@[chain].text_starts@
    }

    /// Per chain: it observes text and has an open instance.
    pub open spec fn spec_text_open(&self) -> Seq<bool> {
        Seq::new(
            self.spec_chain_count(),
            |i: int| self.spec_bindings()[i].spec_track_text() && self.spec_open_instances(i).len() > 0,
        )
    }

    /// Per chain: it observes comments and has an open instance.
    pub open spec fn spec_comment_open(&self) -> Seq<bool> {
        Seq::new(
            self.spec_chain_count(),
            |i: int| self.spec_bindings()[i].on_comment && self.spec_open_instances(i).len() > 0,
        )
    }

    /// Number of DFA states built for chain `i`.
    pub closed spec fn spec_state_count(&self, i: int) -> nat {
        self.chains@[i].regexp.num_states()
    }

    /// The expression of chain `i`'s DFA state after the open ancestry.
    pub closed spec fn chain_re(&self, i: int) -> Re {
        self.chains@[i].regexp.state_re(self.regexp_states@[i] as int)
    }

    /// The DFA state expression that `state` stands for in chain `i`.
    pub closed spec fn chain_state_re(&self, i: int, state: usize) -> Re {
        self.chains@[i].regexp.state_re(state as int)
    }

    /// The pattern chain `i` was compiled to: the expression of its DFA's start state.
    pub closed spec fn spec_pattern(&self, i: int) -> Re {
        self.chains@[i].regexp.state_re(0)
    }

    /// Per chain: the bitsets of the open elements that its DFA state consumed, outermost
    /// first (elements without an end tag are never open).
    pub closed spec fn spec_ancestry(&self) -> Seq<Seq<Seq<u64>>> {
        self.ancestry@
    }

    /// Whether `token` belongs to this runtime: its saved DFA states are states of every
    /// chain, and each is the chain's pattern derived by the token's saved ancestry.
    pub open spec fn fits(&self, token: ExitToken) -> bool {
        &&& token.spec_parent_states().len() == self.spec_chain_count()
        &&& token.spec_parent_ancestry().len() == self.spec_chain_count()
        &&& forall|i: int|
            0 <= i < self.spec_chain_count() ==> {
                &&& #[trigger] token.spec_parent_states()[i] < self.spec_state_count(i)
                &&& self.chain_state_re(i, token.spec_parent_states()[i]) == derive_word(
                    self.spec_pattern(i),
                    token.spec_parent_ancestry()[i],
                )
            }
    }

    /// The DFA states built so far keep their expressions in `later`.
    pub open spec fn grown_into(&self, later: Runtime) -> bool {
        &&& later.spec_chain_count() == self.spec_chain_count()
        &&& forall|i: int| 0 <= i < self.spec_chain_count() ==> #[trigger] later.spec_state_count(i) >= self.spec_state_count(i)
        &&& forall|i: int, s: usize|
            0 <= i < self.spec_chain_count() && s < self.spec_state_count(i) ==> #[trigger] later.chain_state_re(i, s)
                == self.chain_state_re(i, s)
    }

    /// The tests of chain `i`, one per bit of its pattern.
    pub closed spec fn spec_tests(&self, i: int) -> Seq<Test> {
        self.chains@[i].tests@
    }

    /// The bitset of chain `i` given leaf hits and chain matches: bit `k` is set exactly
    /// when the chain's test `k` holds.
    pub open spec fn chain_symbol(&self, i: int, hits: Seq<bool>, matched: Seq<bool>) -> Seq<u64> {
        symbol_of(holds_seq(self.spec_tests(i), hits, matched))
    }

    /// Room for one more element start.
    pub open spec fn can_enter(&self) -> bool {
        &&& self.spec_depth() + 1 < u32::MAX
        &&& self.spec_next_node_id() < u64::MAX
        &&& self.spec_next_instance_id() + self.spec_chain_count() <= u64::MAX
    }

    /// Transitions taken so far by chain `i`'s automaton.
    pub closed spec fn spec_chain_operations(&self, i: int) -> nat {
        self.chains@[i].regexp.spec_operations()
    }

    /// Transitions computed so far by the automata of the first `n` chains.
    pub closed spec fn spec_operations(&self, n: int) -> nat
        decreases n,
    {
        if n <= 0 {
            0
        } else {
            self.spec_operations(n - 1) + self.chains@[n - 1].regexp.spec_operations()
        }
    }

    /// Transitions computed so far by all chains' automata, saturating at `usize::MAX`.
    pub fn operation_count(&self) -> (r: usize)
        ensures
            r == if self.spec_operations(self.spec_chain_count() as int) < usize::MAX {
                self.spec_operations(self.spec_chain_count() as int)
            } else {
                usize::MAX as nat
            },
    {
        let mut total: usize = 0;
        let mut i: usize = 0;
        while i < self.chains.len()
            invariant
                i <= self.chains@.len(),
                total == if self.spec_operations(i as int) < usize::MAX {
                    self.spec_operations(i as int)
                } else {
                    usize::MAX as nat
                },
            decreases self.chains@.len() - i,
        {
            let ops = self.chains[i].regexp.operation_count();
            total = total.saturating_add(ops);
            i = i + 1;
        }
        total
    }

    /// Whether there is room for one more element start.
    pub fn has_room(&self) -> (r: bool)
        ensures
            r == self.can_enter(),
    {
        self.depth < u32::MAX - 1 && self.next_node_id < u64::MAX && self.chains.len() as u64
            <= u64::MAX - self.next_instance_id
    }

    /// Records that leaf `leaf` matched the element being handled.
    pub fn set_hit(&mut self, leaf: usize)
        requires
            old(self).wf(),
            leaf < old(self).spec_leaf_count(),
        ensures
            counters_step(*old(self), *final(self), false, 0),
            forall|i: int| 0 <= i < old(self).spec_chain_count() ==> #[trigger] final(self).spec_chain_operations(i) == old(self).spec_chain_operations(i),
            old(self).grown_into(*final(self)),
            final(self).wf(),
            final(self).spec_hits() == old(self).spec_hits().update(leaf as int, true),
            final(self).spec_ancestry() == old(self).spec_ancestry(),
            final(self).spec_text_chunks() == old(self).spec_text_chunks(),
            forall|c: int|
                0 <= c < old(self).spec_chain_count() ==> {
                    &&& #[trigger] final(self).spec_open_instances(c) == old(self).spec_open_instances(c)
                    &&& final(self).spec_text_starts(c) == old(self).spec_text_starts(c)
                },
            final(self).spec_chain_count() == old(self).spec_chain_count(),
            final(self).spec_bindings() == old(self).spec_bindings(),
            final(self).spec_matched() == old(self).spec_matched(),
            final(self).spec_regexp_states() == old(self).spec_regexp_states(),
            final(self).spec_depth() == old(self).spec_depth(),
            final(self).spec_next_instance_id() == old(self).spec_next_instance_id(),
            final(self).spec_next_node_id() == old(self).spec_next_node_id(),
            forall|i: int| 0 <= i < old(self).spec_chain_count() ==> #[trigger] final(self).chain_re(i) == old(self).chain_re(i),
    {
        self.hits.set(leaf, true);
    }

    /// Records the outcome of leaf `leaf`'s selector matching the element being handled:
    /// `answer` is the leaf predicate's verdict on the element, `None` for a leaf without a
    /// predicate. A predicate that rejects the element leaves no hit; otherwise the leaf
    /// is hit.
    pub fn leaf_matched(&mut self, leaf: usize, answer: Option<bool>)
        requires
            old(self).wf(),
            leaf < old(self).spec_leaf_count(),
        ensures
            answer == Some(false) ==> *final(self) == *old(self),
            final(self).wf(),
            answer != Some(false) ==> (counters_step(*old(self), *final(self), false, 0)),
            answer != Some(false) ==> (forall|i: int| 0 <= i < old(self).spec_chain_count() ==> #[trigger] final(self).spec_chain_operations(i) == old(self).spec_chain_operations(i)),
            answer != Some(false) ==> (old(self).grown_into(*final(self))),
            answer != Some(false) ==> (final(self).spec_hits() == old(self).spec_hits().update(leaf as int, true)),
            answer != Some(false) ==> (final(self).spec_ancestry() == old(self).spec_ancestry()),
            answer != Some(false) ==> (final(self).spec_text_chunks() == old(self).spec_text_chunks()),
            answer != Some(false) ==> (forall|c: int|
                0 <= c < old(self).spec_chain_count() ==> {
                    &&& #[trigger] final(self).spec_open_instances(c) == old(self).spec_open_instances(c)
                    &&& final(self).spec_text_starts(c) == old(self).spec_text_starts(c)
                }),
            answer != Some(false) ==> (final(self).spec_chain_count() == old(self).spec_chain_count()),
            answer != Some(false) ==> (final(self).spec_bindings() == old(self).spec_bindings()),
            answer != Some(false) ==> (final(self).spec_matched() == old(self).spec_matched()),
            answer != Some(false) ==> (final(self).spec_regexp_states() == old(self).spec_regexp_states()),
            answer != Some(false) ==> (final(self).spec_depth() == old(self).spec_depth()),
            answer != Some(false) ==> (final(self).spec_next_instance_id() == old(self).spec_next_instance_id()),
            answer != Some(false) ==> (final(self).spec_next_node_id() == old(self).spec_next_node_id()),
            answer != Some(false) ==> (forall|i: int| 0 <= i < old(self).spec_chain_count() ==> #[trigger] final(self).chain_re(i) == old(self).chain_re(i)),
    {
        match answer {
            Some(false) => {},
            _ => self.set_hit(leaf),
        }
    }

    /// Ensures a bookkeeping slot exists for `depth`.
    fn ensure_depth_slot(&mut self, depth: u32)
        requires
            depth < u32::MAX,
        ensures
            final(self).depth_slots@.len() >= depth as int + 1,
            final(self).chains == old(self).chains,
            final(self).bindings == old(self).bindings,
            final(self).hits == old(self).hits,
            final(self).matched == old(self).matched,
            final(self).regexp_states == old(self).regexp_states,
            final(self).depth == old(self).depth,
            final(self).next_instance_id == old(self).next_instance_id,
            final(self).next_node_id == old(self).next_node_id,
            final(self).text_chunks == old(self).text_chunks,
            final(self).chain_states == old(self).chain_states,
            final(self).ancestry == old(self).ancestry,
    {
        let need = depth as usize + 1;
        while self.depth_slots.len() < need
            invariant
                self.chains == old(self).chains,
                self.bindings == old(self).bindings,
                self.hits == old(self).hits,
                self.matched == old(self).matched,
                self.regexp_states == old(self).regexp_states,
                self.depth == old(self).depth,
                self.next_instance_id == old(self).next_instance_id,
                self.next_node_id == old(self).next_node_id,
                self.text_chunks == old(self).text_chunks,
                self.chain_states == old(self).chain_states,
                self.ancestry == old(self).ancestry,
            decreases need - self.depth_slots.len(),
        {
            self.depth_slots.push(DepthSlot {});
        }
    }

    /// Handles an element start after its leaf hits were recorded: advances every chain's
    /// DFA by the element's bitset, decides which chains match, and opens an instance for
    /// each match of a chain with callbacks. `has_end_tag` tells whether an end tag will
    /// close the element.
    #[verifier::loop_isolation(false)]
    #[verifier::rlimit(50)]
    pub fn enter(&mut self, has_end_tag: bool) -> (r: Enter)
        requires
            old(self).wf(),
            old(self).can_enter(),
        ensures
            counters_step(*old(self), *final(self), true, r.activations@.len()),
            old(self).grown_into(*final(self)),
            final(self).wf(),
            final(self).spec_chain_count() == old(self).spec_chain_count(),
            final(self).spec_leaf_count() == old(self).spec_leaf_count(),
            final(self).spec_bindings() == old(self).spec_bindings(),
            forall|i: int|
                0 <= i < old(self).spec_chain_count() ==> #[trigger] final(self).spec_matched()[i]
                    == re_nullable(
                    spec_derivative(
                        old(self).chain_re(i),
                        old(self).chain_symbol(i, old(self).spec_hits(), final(self).spec_matched()),
                    ),
                ),
            forall|i: int|
                0 <= i < old(self).spec_chain_count() ==> #[trigger] final(self).chain_re(i) == if has_end_tag {
                    spec_derivative(
                        old(self).chain_re(i),
                        old(self).chain_symbol(i, old(self).spec_hits(), final(self).spec_matched()),
                    )
                } else {
                    old(self).chain_re(i)
                },
            forall|i: int|
                0 <= i < old(self).spec_chain_count() ==> #[trigger] final(self).spec_matched()[i] == lang(
                    old(self).spec_pattern(i),
                    old(self).spec_ancestry()[i].push(
                        old(self).chain_symbol(i, old(self).spec_hits(), final(self).spec_matched()),
                    ),
                ),
            final(self).spec_ancestry().len() == old(self).spec_chain_count(),
            forall|i: int|
                0 <= i < old(self).spec_chain_count() ==> #[trigger] final(self).spec_ancestry()[i] == if has_end_tag {
                    old(self).spec_ancestry()[i].push(
                        old(self).chain_symbol(i, old(self).spec_hits(), final(self).spec_matched()),
                    )
                } else {
                    old(self).spec_ancestry()[i]
                },
            forall|i: int| 0 <= i < final(self).spec_leaf_count() ==> !(#[trigger] final(self).spec_hits()[i]),
            forall|i: int| 0 <= i < old(self).spec_chain_count() ==> #[trigger] final(self).spec_chain_operations(i) == if old(self).spec_chain_operations(i) < usize::MAX {
                old(self).spec_chain_operations(i) + 1
            } else {
                old(self).spec_chain_operations(i)
            },
            final(self).spec_next_node_id() == old(self).spec_next_node_id() + 1,
            final(self).spec_depth() == if has_end_tag {
                old(self).spec_depth() + 1
            } else {
                old(self).spec_depth() as int
            },
            r.activations@.len() == activated(final(self).spec_matched(), old(self).spec_bindings(), old(self).spec_chain_count() as int).len(),
            final(self).spec_next_instance_id() == old(self).spec_next_instance_id() + r.activations@.len(),
            forall|k: int|
                0 <= k < r.activations@.len() ==> {
                    &&& (#[trigger] r.activations@[k]).chain == activated(final(self).spec_matched(), old(self).spec_bindings(), old(self).spec_chain_count() as int)[k]
                    &&& r.activations@[k].instance == old(self).spec_next_instance_id() + k
                    &&& r.activations@[k].node_id == old(self).spec_next_node_id()
                    &&& r.activations@[k].depth == old(self).spec_depth() + 1
                    &&& r.activations@[k].exit_now == !has_end_tag
                },
            r.exit is Some <==> has_end_tag,
            final(self).spec_text_chunks() == old(self).spec_text_chunks(),
            forall|k: int|
                0 <= k < r.activations@.len() && has_end_tag ==> {
                    let c = (#[trigger] r.activations@[k]).chain as int;
                    &&& final(self).spec_open_instances(c) == old(self).spec_open_instances(c).push(r.activations@[k].instance)
                    &&& final(self).spec_text_starts(c) == if old(self).spec_bindings()[c].on_text {
                        old(self).spec_text_starts(c).push(old(self).spec_text_chunks().len() as usize)
                    } else {
                        old(self).spec_text_starts(c)
                    }
                },
            forall|c: int|
                0 <= c < old(self).spec_chain_count() && !(has_end_tag && activated(final(self).spec_matched(), old(self).spec_bindings(), old(self).spec_chain_count() as int).contains(c as usize)) ==> {
                    &&& #[trigger] final(self).spec_open_instances(c) == old(self).spec_open_instances(c)
                    &&& final(self).spec_text_starts(c) == old(self).spec_text_starts(c)
                },
            r.exit matches Some(t) ==> {
                &&& t.spec_parent_states() == old(self).spec_regexp_states()
                &&& t.spec_parent_depth() == old(self).spec_depth()
                &&& t.spec_opened() == activated(final(self).spec_matched(), old(self).spec_bindings(), old(self).spec_chain_count() as int)
                &&& t.spec_parent_ancestry() == old(self).spec_ancestry()
                &&& final(self).fits(t)
            },
    {
        let n = self.chains.len();
        let ghost old_self = *self;
        let mut parent_states: Vec<usize> = Vec::new();
        let mut i: usize = 0;
        while i < n
            invariant
                n == self.chains@.len(),
                self.wf(),
                *self == old_self,
                i <= n,
                parent_states@ =~= self.regexp_states@.take(i as int),
            decreases n - i,
        {
            parent_states.push(self.regexp_states[i]);
            i += 1;
        }
        assert(parent_states@ =~= old_self.regexp_states@);
        let mut i: usize = 0;
        while i < n
            invariant
                n == self.chains@.len(),
                self.wf(),
                i <= n,
                self.matched@.len() == n,
                forall|j: int| 0 <= j < i ==> !self.matched@[j],
                self.chains == old_self.chains,
                self.hits == old_self.hits,
                self.regexp_states == old_self.regexp_states,
                self.bindings == old_self.bindings,
                self.chain_states == old_self.chain_states,
                self.depth == old_self.depth,
                self.next_instance_id == old_self.next_instance_id,
                self.next_node_id == old_self.next_node_id,
                self.text_chunks == old_self.text_chunks,
                self.depth_slots == old_self.depth_slots,
                self.ancestry == old_self.ancestry,
            decreases n - i,
        {
            self.matched.set(i, false);
            i += 1;
        }
        let mut child_states: Vec<usize> = Vec::new();
        let mut index: usize = 0;
        while index < n
            invariant
                n == self.chains@.len(),
                index <= n,
                self.bindings == old_self.bindings,
                self.hits == old_self.hits,
                self.regexp_states == old_self.regexp_states,
                parent_states@ == old_self.regexp_states@,
                self.matched@.len() == n,
                self.chain_states == old_self.chain_states,
                self.depth == old_self.depth,
                self.next_instance_id == old_self.next_instance_id,
                self.next_node_id == old_self.next_node_id,
                self.text_chunks == old_self.text_chunks,
                self.depth_slots == old_self.depth_slots,
                self.ancestry == old_self.ancestry,
                child_states@.len() == index,
                forall|j: int| index <= j < n ==> !self.matched@[j],
                forall|j: int| 0 <= j < n ==> #[trigger] self.chains@[j].regexp.spec_operations() == if j < index {
                    if old_self.chains@[j].regexp.spec_operations() < usize::MAX {
                        old_self.chains@[j].regexp.spec_operations() + 1
                    } else {
                        old_self.chains@[j].regexp.spec_operations()
                    }
                } else {
                    old_self.chains@[j].regexp.spec_operations()
                },
                forall|j: int|
                    0 <= j < n ==> {
                        &&& (#[trigger] self.chains@[j]).regexp.wf()
                        &&& self.chains@[j].tests == old_self.chains@[j].tests
                        &&& old_self.chains@[j].regexp.num_states() <= self.chains@[j].regexp.num_states()
                        &&& forall|s: int| 0 <= s < old_self.chains@[j].regexp.num_states() ==> #[trigger] self.chains@[j].regexp.state_re(s) == old_self.chains@[j].regexp.state_re(s)
                    },
                forall|j: int|
                    0 <= j < index ==> {
                        &&& (#[trigger] child_states@[j]) < self.chains@[j].regexp.num_states()
                        &&& self.chains@[j].regexp.state_re(child_states@[j] as int) == spec_derivative(
                            old_self.chain_re(j),
                            old_self.chain_symbol(j, old_self.hits@, self.matched@),
                        )
                        &&& self.matched@[j] == re_nullable(self.chains@[j].regexp.state_re(child_states@[j] as int))
                    },
                old_self.wf(),
            decreases n - index,
        {
            proof {
                assert(old_self.chains@[index as int].regexp.wf());
                assert(self.chains@[index as int].tests == old_self.chains@[index as int].tests);
            }
            let sym = symbol(&self.chains[index].tests, &self.hits, &self.matched);
            let from = parent_states[index];
            let ghost prev_chains = self.chains@;
            let next = self.chains[index].regexp.transition(from, &sym);
            assert(self.chains@.len() == n);
            assert(forall|j: int| 0 <= j < n && j != index ==> self.chains@[j] == prev_chains[j]);
            assert(self.chains@[index as int].tests == prev_chains[index as int].tests);
            let m = self.chains[index].regexp.is_match(next);
            let ghost before_matched = self.matched@;
            self.matched.set(index, m);
            child_states.push(next);
            proof {
                assert forall|j: int| 0 <= j <= index implies old_self.chain_symbol(j, old_self.hits@, self.matched@)
                    == old_self.chain_symbol(j, old_self.hits@, before_matched) by {
                    lemma_holds_frame(old_self.chains@[j].tests@, old_self.hits@, self.matched@, before_matched, j);
                }
                assert(old_self.chain_re(index as int) == prev_chains[index as int].regexp.state_re(from as int));
                assert forall|j: int| 0 <= j < index + 1 implies {
                        &&& (#[trigger] child_states@[j]) < self.chains@[j].regexp.num_states()
                        &&& self.chains@[j].regexp.state_re(child_states@[j] as int) == spec_derivative(
                            old_self.chain_re(j),
                            old_self.chain_symbol(j, old_self.hits@, self.matched@),
                        )
                        &&& self.matched@[j] == re_nullable(self.chains@[j].regexp.state_re(child_states@[j] as int))
                    } by {
                    if j < index {
                        assert(self.chains@[j] == prev_chains[j]);
                        assert(self.matched@[j] == before_matched[j]);
                    }
                }
            }
            index += 1;
        }
        proof {
            assert forall|j: int| 0 <= j < n implies old_self.chain_symbol(j, old_self.hits@, self.matched@) == old_self.chain_symbol(j, old_self.hits@, self.matched@) by {}
        }
        let ghost after_dfa = *self;
        proof {
            assert forall|j: int| 0 <= j < n implies {
                &&& (#[trigger] after_dfa.matched@[j]) == re_nullable(spec_derivative(
                    old_self.chain_re(j),
                    old_self.chain_symbol(j, old_self.hits@, after_dfa.matched@),
                ))
                &&& child_states@[j] < after_dfa.chains@[j].regexp.num_states()
                &&& after_dfa.chains@[j].regexp.state_re(child_states@[j] as int) == spec_derivative(
                    old_self.chain_re(j),
                    old_self.chain_symbol(j, old_self.hits@, after_dfa.matched@),
                )
                &&& after_dfa.chains@[j].regexp.state_re(old_self.regexp_states@[j] as int) == old_self.chain_re(j)
                &&& old_self.regexp_states@[j] < after_dfa.chains@[j].regexp.num_states()
            } by {
                assert(child_states@[j] < self.chains@[j].regexp.num_states());
                assert(old_self.regexp_states@[j] < old_self.chains@[j].regexp.num_states());
            }
        }
        let mut k: usize = 0;
        while k < self.hits.len()
            invariant
                self.chains == after_dfa.chains,
                self.matched == after_dfa.matched,
                k <= self.hits@.len(),
                self.hits@.len() == old_self.hits@.len(),
                forall|j: int| 0 <= j < k ==> !self.hits@[j],
                self.depth == old_self.depth,
                self.next_node_id == old_self.next_node_id,
                self.next_instance_id == old_self.next_instance_id,
                self.bindings == old_self.bindings,
                self.chain_states == old_self.chain_states,
                self.text_chunks == old_self.text_chunks,
                self.regexp_states == old_self.regexp_states,
                self.ancestry == old_self.ancestry,
            decreases self.hits@.len() - k,
        {
            self.hits.set(k, false);
            k += 1;
        }
        let ghost child_view = child_states@;
        let ghost pushed = Seq::new(
            n as nat,
            |i: int| old_self.ancestry@[i].push(old_self.chain_symbol(i, old_self.hits@, after_dfa.matched@)),
        );
        proof {
            assert forall|i: int| 0 <= i < n implies {
                &&& #[trigger] after_dfa.chains@[i].regexp.state_re(0) == old_self.spec_pattern(i)
                &&& after_dfa.chains@[i].regexp.state_re(child_view[i] as int) == derive_word(
                    old_self.spec_pattern(i),
                    pushed[i],
                )
                &&& after_dfa.chains@[i].regexp.state_re(old_self.regexp_states@[i] as int) == derive_word(
                    old_self.spec_pattern(i),
                    old_self.ancestry@[i],
                )
                &&& after_dfa.matched@[i] == accepts(old_self.spec_pattern(i), pushed[i])
            } by {
                old_self.chains@[i].regexp.lemma_has_start();
                let sym = old_self.chain_symbol(i, old_self.hits@, after_dfa.matched@);
                lemma_derive_word_push(old_self.spec_pattern(i), old_self.ancestry@[i], sym);
                lemma_accepts_derive_word(old_self.spec_pattern(i), pushed[i]);
            }
        }
        let parent_depth = self.depth;
        let child_depth = parent_depth + 1;
        let node_id = self.next_node_id;
        self.next_node_id = self.next_node_id + 1;
        if has_end_tag {
            self.regexp_states = child_states;
            self.depth = child_depth;
            self.ensure_depth_slot(child_depth);
            self.ancestry = Ghost(pushed);
        }
        let ghost matched_final = self.matched@;
        let ghost before_acts = *self;
        let mut activations: Vec<Activation> = Vec::new();
        let mut opened: Vec<ChainId> = Vec::new();
        let mut chain_id: usize = 0;
        while chain_id < n
            invariant
                n == self.chains@.len(),
                chain_id <= n,
                self.matched@ == matched_final,
                matched_final.len() == n,
                self.chains == before_acts.chains,
                self.hits == before_acts.hits,
                self.regexp_states == before_acts.regexp_states,
                self.depth == before_acts.depth,
                self.next_node_id == before_acts.next_node_id,
                self.text_chunks == before_acts.text_chunks,
                self.ancestry == before_acts.ancestry,
                self.bindings == old_self.bindings,
                forall|c: int|
                    0 <= c < n ==> (#[trigger] self.chain_states@[c]).consistent(
                        self.bindings@[c],
                        self.next_instance_id,
                        self.text_chunks@.len(),
                    ),
                self.chain_states@.len() == n,
                self.next_instance_id == old_self.next_instance_id + activations@.len(),
                old_self.next_instance_id + n <= u64::MAX,
                activations@.len() == activated(matched_final, old_self.bindings@, chain_id as int).len(),
                activations@.len() <= chain_id,
                forall|q: int|
                    0 <= q < activations@.len() ==> {
                        &&& (#[trigger] activations@[q]).chain == activated(matched_final, old_self.bindings@, chain_id as int)[q]
                        &&& activations@[q].instance == old_self.next_instance_id + q
                        &&& activations@[q].node_id == node_id
                        &&& activations@[q].depth == child_depth
                        &&& activations@[q].exit_now == !has_end_tag
                    },
                has_end_tag ==> opened@ == activated(matched_final, old_self.bindings@, chain_id as int),
                forall|q: int|
                    0 <= q < activations@.len() && has_end_tag ==> {
                        let c = (#[trigger] activations@[q]).chain as int;
                        &&& self.chain_states@[c].open_instances@ == before_acts.chain_states@[c].open_instances@.push(activations@[q].instance)
                        &&& self.chain_states@[c].text_starts@ == if self.bindings@[c].on_text {
                            before_acts.chain_states@[c].text_starts@.push(before_acts.text_chunks@.len() as usize)
                        } else {
                            before_acts.chain_states@[c].text_starts@
                        }
                    },
                forall|c: int|
                    0 <= c < n && !(has_end_tag && activated(matched_final, old_self.bindings@, chain_id as int).contains(c as usize))
                        ==> #[trigger] self.chain_states@[c] == before_acts.chain_states@[c],
            decreases n - chain_id,
        {
            let ghost before_step = *self;
            let ghost acts_before = activations@;
            proof {
                lemma_activated_step(matched_final, old_self.bindings@, chain_id as int);
                lemma_activated_increasing(matched_final, old_self.bindings@, chain_id as int);
            }
            if self.matched[chain_id] && self.bindings[chain_id].has_lifecycle() {
                let instance = self.next_instance_id;
                self.next_instance_id = self.next_instance_id + 1;
                if has_end_tag {
                    let b = self.bindings[chain_id];
                    proof {
                        assert(!activated(matched_final, old_self.bindings@, chain_id as int).contains(chain_id));
                    }
                    self.open_instance(chain_id, instance, b);
                    opened.push(chain_id);
                }
                activations.push(Activation { chain: chain_id, instance, node_id, depth: child_depth, exit_now: !has_end_tag });
                proof {
                    assert forall|q: int| 0 <= q < acts_before.len() implies (#[trigger] acts_before[q]).chain < chain_id by {
                        assert(acts_before[q].chain == activated(matched_final, old_self.bindings@, chain_id as int)[q]);
                    }
                    assert(activations@[acts_before.len() as int].chain == chain_id);
                }
            }
            chain_id += 1;
        }
        proof {
            lemma_activated_increasing(matched_final, old_self.bindings@, n as int);
            assert forall|i: int| 0 <= i < n implies #[trigger] self.matched@[i] == lang(
                old_self.spec_pattern(i),
                old_self.ancestry@[i].push(old_self.chain_symbol(i, old_self.hits@, self.matched@)),
            ) by {
                assert(after_dfa.chains@[i].regexp.state_re(0) == old_self.spec_pattern(i));
                assert(pushed[i] == old_self.ancestry@[i].push(old_self.chain_symbol(i, old_self.hits@, self.matched@)));
                lemma_accepts_lang(old_self.spec_pattern(i), pushed[i]);
            }
        }
        let exit = if has_end_tag {
            Some(ExitToken { parent_states, parent_depth, opened, parent_ancestry: Ghost(old_self.ancestry@) })
        } else {
            None
        };
        Enter { activations, exit }
    }

    /// Opens an instance of `chain` for an element with an end tag.
    fn open_instance(&mut self, chain: ChainId, instance: InstanceId, b: ChainBindings)
        requires
            chain < old(self).chain_states@.len(),
            old(self).chain_states@[chain as int].consistent(b, instance, old(self).text_chunks@.len()),
            instance < u64::MAX,
        ensures
            final(self).chains == old(self).chains,
            final(self).bindings == old(self).bindings,
            final(self).hits == old(self).hits,
            final(self).matched == old(self).matched,
            final(self).regexp_states == old(self).regexp_states,
            final(self).depth == old(self).depth,
            final(self).next_instance_id == old(self).next_instance_id,
            final(self).next_node_id == old(self).next_node_id,
            final(self).text_chunks == old(self).text_chunks,
            final(self).ancestry == old(self).ancestry,
            final(self).chain_states@.len() == old(self).chain_states@.len(),
            final(self).chain_states@[chain as int].consistent(b, (instance + 1) as u64, final(self).text_chunks@.len()),
            final(self).chain_states@[chain as int].open_instances@ == old(self).chain_states@[chain as int].open_instances@.push(instance),
            final(self).chain_states@[chain as int].text_starts@ == if b.on_text {
                old(self).chain_states@[chain as int].text_starts@.push(old(self).text_chunks@.len() as usize)
            } else {
                old(self).chain_states@[chain as int].text_starts@
            },
            forall|j: int| 0 <= j < old(self).chain_states@.len() && j != chain ==> #[trigger] final(self).chain_states@[j] == old(self).chain_states@[j],
    {
        let chunk_count = self.text_chunks.len();
        let mut state = ChainState::new();
        std::mem::swap(&mut state, &mut self.chain_states[chain]);
        proof {
            lemma_increasing_below(state.open_instances@, instance);
        }
        state.open_instances.push(instance);
        if b.on_text_chunk || b.on_text {
            state.text_open = state.text_open + 1;
            if b.on_text {
                state.text_starts.push(chunk_count);
            }
        }
        if b.on_comment {
            state.comment_open = state.comment_open + 1;
        }
        self.chain_states.set(chain, state);
    }

    /// Handles an end tag: restores the ancestry state saved by the matching `enter`, and
    /// ends the instances that `enter` opened, gathering their aggregated text.
    #[verifier::loop_isolation(false)]
    pub fn exit(&mut self, token: ExitToken) -> (r: Vec<Ended>)
        requires
            old(self).wf(),
        ensures
            counters_step(*old(self), *final(self), false, 0),
            forall|i: int| 0 <= i < old(self).spec_chain_count() ==> #[trigger] final(self).spec_chain_operations(i) == old(self).spec_chain_operations(i),
            old(self).grown_into(*final(self)),
            final(self).wf(),
            final(self).spec_chain_count() == old(self).spec_chain_count(),
            final(self).spec_leaf_count() == old(self).spec_leaf_count(),
            final(self).spec_bindings() == old(self).spec_bindings(),
            final(self).spec_next_instance_id() == old(self).spec_next_instance_id(),
            final(self).spec_next_node_id() == old(self).spec_next_node_id(),
            final(self).spec_depth() == token.spec_parent_depth(),
            token.spec_parent_states().len() == old(self).spec_chain_count() && (forall|i: int|
                0 <= i < old(self).spec_chain_count() ==> #[trigger] token.spec_parent_states()[i]
                    < old(self).spec_state_count(i)) ==> final(self).spec_regexp_states()
                == token.spec_parent_states(),
            forall|i: int| 0 <= i < old(self).spec_chain_count() ==> #[trigger] final(self).chain_re(i) == old(self).chain_state_re(i, final(self).spec_regexp_states()[i]),
            old(self).fits(token) ==> final(self).spec_regexp_states() == token.spec_parent_states()
                && final(self).spec_ancestry() == token.spec_parent_ancestry(),
            r@.len() == token.spec_opened().len(),
            forall|k: int| 0 <= k < r@.len() ==> (#[trigger] r@[k]).chain == token.spec_opened()[k],
            forall|k: int|
                0 <= k < r@.len() && token.spec_opened()[k] < old(self).spec_chain_count() ==> {
                    let c = token.spec_opened()[k] as int;
                    &&& (#[trigger] r@[k]).instance == if old(self).spec_open_instances(c).len() > 0 {
                        Some(old(self).spec_open_instances(c).last())
                    } else {
                        None
                    }
                    &&& final(self).spec_open_instances(c) == if old(self).spec_open_instances(c).len() > 0 {
                        old(self).spec_open_instances(c).drop_last()
                    } else {
                        old(self).spec_open_instances(c)
                    }
                    &&& r@[k].text is Some <==> old(self).spec_bindings()[c].on_text
                    &&& old(self).spec_bindings()[c].on_text && old(self).spec_open_instances(c).len() > 0 ==> (r@[k].text matches Some(t)
                        && t@ == text_from(old(self).spec_text_chunks(), old(self).spec_text_starts(c).last() as int))
                    &&& final(self).spec_text_starts(c) == if old(self).spec_text_starts(c).len() > 0 {
                        old(self).spec_text_starts(c).drop_last()
                    } else {
                        old(self).spec_text_starts(c)
                    }
                },
            forall|c: int|
                0 <= c < old(self).spec_chain_count() && !token.spec_opened().contains(c as usize) ==> {
                    &&& #[trigger] final(self).spec_open_instances(c) == old(self).spec_open_instances(c)
                    &&& final(self).spec_text_starts(c) == old(self).spec_text_starts(c)
                },
            final(self).spec_text_chunks() == old(self).spec_text_chunks() || (forall|c: int|
                0 <= c < old(self).spec_chain_count() ==> (#[trigger] final(self).spec_text_starts(c)).len() == 0),
    {
        proof {
            use_type_invariant(&token);
        }
        let n = self.chains.len();
        let ghost old_self = *self;
        let ghost token_fits = self.fits(token);
        let ExitToken { parent_states, parent_depth, opened, parent_ancestry } = token;
        let ghost saved = parent_states@;
        let mut valid = parent_states.len() == n;
        let mut i: usize = 0;
        while i < parent_states.len() && valid
            invariant
                i <= parent_states@.len(),
                valid ==> parent_states@.len() == n,
                valid ==> forall|j: int| 0 <= j < i ==> #[trigger] parent_states@[j] < old_self.chains@[j].regexp.num_states(),
                !valid ==> !(parent_states@.len() == n && (forall|j: int| 0 <= j < n ==> #[trigger] parent_states@[j] < old_self.chains@[j].regexp.num_states())),
            decreases parent_states@.len() - i,
        {
            if parent_states[i] >= self.chains[i].regexp.state_count() {
                valid = false;
            }
            i += 1;
        }
        if valid {
            self.regexp_states = parent_states;
            self.ancestry = Ghost(
                Seq::new(
                    n as nat,
                    |i: int|
                        if token_fits {
                            parent_ancestry@[i]
                        } else {
                            choose|w: Seq<Seq<u64>>| derive_word(old_self.spec_pattern(i), w) == old_self.chain_state_re(i, saved[i])
                        },
                ),
            );
            proof {
                assert forall|i: int| 0 <= i < n implies #[trigger] self.chains@[i].regexp.state_re(self.regexp_states@[i] as int)
                    == derive_word(self.chains@[i].regexp.state_re(0), self.ancestry@[i]) by {
                    self.chains@[i].regexp.lemma_reachable(saved[i] as int);
                }
                if token_fits {
                    assert(self.ancestry@ =~= parent_ancestry@);
                }
            }
        }
        self.depth = parent_depth;
        let ghost before = *self;
        let mut ended: Vec<Ended> = Vec::new();
        let mut k: usize = 0;
        while k < opened.len()
            invariant
                self.wf(),
                self.chains == before.chains,
                self.hits == before.hits,
                self.regexp_states == before.regexp_states,
                self.bindings == before.bindings,
                self.depth == before.depth,
                self.next_instance_id == before.next_instance_id,
                self.next_node_id == before.next_node_id,
                self.ancestry == before.ancestry,
                self.chain_states@.len() == n,
                k <= opened@.len(),
                ended@.len() == k,
                forall|q: int| 0 <= q < k ==> (#[trigger] ended@[q]).chain == opened@[q],
                forall|p: int, q: int| 0 <= p < q < opened@.len() ==> #[trigger] opened@[p] < #[trigger] opened@[q],
                forall|c: int| 0 <= c < n && (forall|q: int| 0 <= q < k ==> opened@[q] != c) ==> #[trigger] self.chain_states@[c] == old_self.chain_states@[c],
                self.text_chunks@ == old_self.text_chunks@ || (forall|c: int| 0 <= c < n ==> (#[trigger] self.chain_states@[c]).text_starts@.len() == 0),
                forall|q: int|
                    0 <= q < k && opened@[q] < n ==> {
                        let c = opened@[q] as int;
                        &&& (old_self.bindings@[c].on_text && old_self.chain_states@[c].open_instances@.len() > 0 ==> (ended@[q].text matches Some(t) && t@
                            == text_from(old_self.text_chunks@, old_self.chain_states@[c].text_starts@.last() as int)))
                        &&& self.chain_states@[c].text_starts@ == if old_self.chain_states@[c].text_starts@.len() > 0 {
                            old_self.chain_states@[c].text_starts@.drop_last()
                        } else {
                            old_self.chain_states@[c].text_starts@
                        }
                        &&& (#[trigger] ended@[q]).instance == if old_self.chain_states@[c].open_instances@.len() > 0 {
                            Some(old_self.chain_states@[c].open_instances@.last())
                        } else {
                            None
                        }
                        &&& self.chain_states@[c].open_instances@ == if old_self.chain_states@[c].open_instances@.len() > 0 {
                            old_self.chain_states@[c].open_instances@.drop_last()
                        } else {
                            old_self.chain_states@[c].open_instances@
                        }
                        &&& ended@[q].text is Some <==> old_self.bindings@[c].on_text
                    },
            decreases opened@.len() - k,
        {
            let chain = opened[k];
            if chain < n {
                let b = self.bindings[chain];
                let (instance, text) = self.close_instance(chain, b);
                ended.push(Ended { chain, instance, text });
            } else {
                ended.push(Ended { chain, instance: None, text: None });
            }
            k += 1;
        }
        ended
    }

    /// Ends the innermost open instance of `chain`.
    fn close_instance(&mut self, chain: ChainId, b: ChainBindings) -> (r: (Option<InstanceId>, Option<String>))
        requires
            old(self).wf(),
            chain < old(self).chain_states@.len(),
            b == old(self).bindings@[chain as int],
        ensures
            final(self).wf(),
            final(self).chains == old(self).chains,
            final(self).bindings == old(self).bindings,
            final(self).hits == old(self).hits,
            final(self).matched == old(self).matched,
            final(self).regexp_states == old(self).regexp_states,
            final(self).depth == old(self).depth,
            final(self).next_instance_id == old(self).next_instance_id,
            final(self).next_node_id == old(self).next_node_id,
            final(self).ancestry == old(self).ancestry,
            final(self).chain_states@.len() == old(self).chain_states@.len(),
            forall|j: int| 0 <= j < old(self).chain_states@.len() && j != chain ==> #[trigger] final(self).chain_states@[j] == old(self).chain_states@[j],
            final(self).chain_states@[chain as int].text_starts@ == if old(self).chain_states@[chain as int].text_starts@.len() > 0 {
                old(self).chain_states@[chain as int].text_starts@.drop_last()
            } else {
                old(self).chain_states@[chain as int].text_starts@
            },
            final(self).text_chunks@ == old(self).text_chunks@ || (forall|j: int|
                0 <= j < final(self).chain_states@.len() ==> (#[trigger] final(self).chain_states@[j]).text_starts@.len() == 0),
            r.0 == if old(self).chain_states@[chain as int].open_instances@.len() > 0 {
                Some(old(self).chain_states@[chain as int].open_instances@.last())
            } else {
                None
            },
            final(self).chain_states@[chain as int].open_instances@ == if old(self).chain_states@[chain as int].open_instances@.len() > 0 {
                old(self).chain_states@[chain as int].open_instances@.drop_last()
            } else {
                old(self).chain_states@[chain as int].open_instances@
            },
            r.1 is Some <==> b.on_text,
            r.1 matches Some(t) ==> (old(self).chain_states@[chain as int].text_starts@.len() > 0 ==> t@
                == text_from(old(self).text_chunks@, old(self).chain_states@[chain as int].text_starts@.last() as int)),
    {
        let mut state = ChainState::new();
        std::mem::swap(&mut state, &mut self.chain_states[chain]);
        let instance = state.open_instances.pop();
        let track_text = b.on_text_chunk || b.on_text;
        let text = if b.on_text {
            let start = match state.text_starts.pop() {
                Some(start) => start,
                None => self.text_chunks.len(),
            };
            let gathered = self.gather_text(start);
            self.chain_states.set(chain, state);
            if !self.any_text_starts() {
                self.text_chunks.clear();
            }
            let mut swapped = ChainState::new();
            std::mem::swap(&mut swapped, &mut self.chain_states[chain]);
            state = swapped;
            Some(gathered)
        } else {
            None
        };
        if track_text && state.text_open > 0 {
            state.text_open = state.text_open - 1;
        }
        if b.on_comment && state.comment_open > 0 {
            state.comment_open = state.comment_open - 1;
        }
        self.chain_states.set(chain, state);
        (instance, text)
    }

    /// The concatenation of the text chunks from `start` on.
    fn gather_text(&self, start: usize) -> (r: String)
        ensures
            r@ == text_from(self.text_chunks@, start as int),
    {
        let mut text = String::new();
        let mut i = start;
        proof {
            if start >= self.text_chunks@.len() {
                assert(text@ =~= Seq::<char>::empty());
            }
        }
        assert(text@ + text_from(self.text_chunks@, i as int) =~= text_from(self.text_chunks@, start as int));
        while i < self.text_chunks.len()
            invariant
                start <= i,
                text@ + text_from(self.text_chunks@, i as int) =~= text_from(self.text_chunks@, start as int),
            decreases self.text_chunks@.len() - i,
        {
            let ghost before = text@;
            text.append(self.text_chunks[i].as_str());
            assert(before + text_from(self.text_chunks@, i as int) =~= before + self.text_chunks@[i as int]@ + text_from(self.text_chunks@, i + 1));
            i += 1;
        }
        text
    }

    /// Whether some chain still gathers aggregated text.
    fn any_text_starts(&self) -> (r: bool)
        ensures
            r == exists|c: int| 0 <= c < self.chain_states@.len() && (#[trigger] self.chain_states@[c]).text_starts@.len() > 0,
    {
        let mut c: usize = 0;
        while c < self.chain_states.len()
            invariant
                c <= self.chain_states@.len(),
                forall|j: int| 0 <= j < c ==> (#[trigger] self.chain_states@[j]).text_starts@.len() == 0,
            decreases self.chain_states@.len() - c,
        {
            if self.chain_states[c].text_starts.len() > 0 {
                return true;
            }
            c += 1;
        }
        false
    }

    /// Handles a text chunk: returns the chains whose per-chunk callback runs, in order,
    /// and keeps the chunk when an open match gathers aggregated text.
    pub fn text_chunk(&mut self, chunk: &str) -> (r: Vec<ChainId>)
        requires
            old(self).wf(),
        ensures
            counters_step(*old(self), *final(self), false, 0),
            forall|i: int| 0 <= i < old(self).spec_chain_count() ==> #[trigger] final(self).spec_chain_operations(i) == old(self).spec_chain_operations(i),
            old(self).grown_into(*final(self)),
            final(self).wf(),
            final(self).spec_chain_count() == old(self).spec_chain_count(),
            final(self).spec_bindings() == old(self).spec_bindings(),
            final(self).spec_regexp_states() == old(self).spec_regexp_states(),
            forall|i: int| 0 <= i < old(self).spec_chain_count() ==> #[trigger] final(self).chain_re(i) == old(self).chain_re(i),
            final(self).spec_ancestry() == old(self).spec_ancestry(),
            final(self).spec_depth() == old(self).spec_depth(),
            forall|c: int|
                0 <= c < old(self).spec_chain_count() ==> {
                    &&& #[trigger] final(self).spec_open_instances(c) == old(self).spec_open_instances(c)
                    &&& final(self).spec_text_starts(c) == old(self).spec_text_starts(c)
                },
            r@ == listening(
                old(self).spec_text_open(),
                Seq::new(old(self).spec_chain_count(), |i: int| old(self).spec_bindings()[i].on_text_chunk),
                old(self).spec_chain_count() as int,
            ),
            (exists|c: int| 0 <= c < old(self).spec_chain_count() && #[trigger] old(self).spec_text_open()[c] && old(self).spec_bindings()[c].on_text)
                ==> final(self).spec_text_chunks().len() == old(self).spec_text_chunks().len() + 1
                && final(self).spec_text_chunks().last()@ == chunk@,
            !(exists|c: int| 0 <= c < old(self).spec_chain_count() && #[trigger] old(self).spec_text_open()[c] && old(self).spec_bindings()[c].on_text)
                ==> final(self).spec_text_chunks() == old(self).spec_text_chunks(),
    {
        let n = self.chains.len();
        let ghost open = self.spec_text_open();
        let ghost wants = Seq::new(n as nat, |i: int| self.bindings@[i].on_text_chunk);
        let mut listeners: Vec<ChainId> = Vec::new();
        let mut store = false;
        let mut c: usize = 0;
        while c < n
            invariant
                n == self.chains@.len(),
                self.wf(),
                c <= n,
                open == self.spec_text_open(),
                wants == Seq::new(n as nat, |i: int| self.bindings@[i].on_text_chunk),
                listeners@ == listening(open, wants, c as int),
                store == exists|j: int| 0 <= j < c && #[trigger] open[j] && self.bindings@[j].on_text,
            decreases n - c,
        {
            let is_open = self.chain_states[c].text_open > 0;
            if is_open && self.bindings[c].on_text_chunk {
                listeners.push(c);
            }
            if is_open && self.bindings[c].on_text {
                assert(open[c as int] && self.bindings@[c as int].on_text);
                store = true;
            }
            c += 1;
        }
        if store {
            self.text_chunks.push(chunk.to_owned());
        }
        listeners
    }

    /// Handles a comment: returns the chains whose comment callback runs, in order.
    pub fn comment(&self) -> (r: Vec<ChainId>)
        requires
            self.wf(),
        ensures
            r@ == listening(
                self.spec_comment_open(),
                Seq::new(self.spec_chain_count(), |i: int| self.spec_bindings()[i].on_comment),
                self.spec_chain_count() as int,
            ),
    {
        let n = self.chains.len();
        let ghost open = self.spec_comment_open();
        let ghost wants = Seq::new(n as nat, |i: int| self.bindings@[i].on_comment);
        let mut listeners: Vec<ChainId> = Vec::new();
        let mut c: usize = 0;
        while c < n
            invariant
                n == self.chains@.len(),
                self.wf(),
                c <= n,
                open == self.spec_comment_open(),
                wants == Seq::new(n as nat, |i: int| self.bindings@[i].on_comment),
                listeners@ == listening(open, wants, c as int),
            decreases n - c,
        {
            if self.chain_states[c].comment_open > 0 && self.bindings[c].on_comment {
                listeners.push(c);
            }
            c += 1;
        }
        listeners
    }
}

/// Growing is transitive: what every runtime operation keeps across one event, it keeps
/// across any run of events.
pub proof fn law_grown_into_transitive(a: Runtime, b: Runtime, c: Runtime)
    requires
        a.grown_into(b),
        b.grown_into(c),
    ensures
        a.grown_into(c),
{
    assert forall|i: int, s: usize|
        0 <= i < a.spec_chain_count() && s < a.spec_state_count(i) implies #[trigger] c.chain_state_re(i, s)
            == a.chain_state_re(i, s) by {
        assert(b.spec_state_count(i) >= a.spec_state_count(i));
        assert(b.chain_state_re(i, s) == a.chain_state_re(i, s));
        assert(c.chain_state_re(i, s) == b.chain_state_re(i, s));
    }
}

/// An exit token stays usable: the automata only grow and keep the expressions of the
/// states they had, so a token that fits the runtime `enter` returned it from still fits
/// after any later events, and `exit` with it restores exactly the saved DFA states and
/// ancestry.
pub proof fn law_token_stays_fitting(before: Runtime, token: ExitToken, later: Runtime)
    requires
        before.wf(),
        before.fits(token),
        before.grown_into(later),
    ensures
        later.fits(token),
{
    assert forall|i: int| 0 <= i < later.spec_chain_count() implies {
        &&& #[trigger] token.spec_parent_states()[i] < later.spec_state_count(i)
        &&& later.chain_state_re(i, token.spec_parent_states()[i]) == derive_word(
            later.spec_pattern(i),
            token.spec_parent_ancestry()[i],
        )
    } by {
        before.chains@[i].regexp.lemma_has_start();
        assert(later.chain_state_re(i, 0usize) == before.chain_state_re(i, 0usize));
        assert(later.chain_state_re(i, token.spec_parent_states()[i]) == before.chain_state_re(i, token.spec_parent_states()[i]));
    }
}

} // verus!
