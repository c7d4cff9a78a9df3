//! The executable streaming plan.
//!
//! The driver takes the engine, runs it over the document and reports, for the plan's
//! chain, each match start (`enter`) and end (`exit`); once the document ends it takes the
//! folded result.

use vstd::prelude::*;
use crate::element_view::ElementView;
use crate::engine::engine::{ChainId, Engine, InstanceId};
use crate::plan::lower::compile::{enter_ready, enter_returns, eval_at_enter, spec_enter_value};
use crate::plan::physical::down::{down_ok, spec_down_ok, DownExtent};
use crate::plan::physical::frames::{Frame, Frames};
use crate::plan::representation::expr::Expr;
use crate::plan::representation::id::{ColId, MonoidId};
use crate::plan::representation::registry::{Registry, Value, ValueM};
use crate::plan::runtime::fold::ReturnCell;
use crate::plan::representation::plan::Plan;
use crate::engine::program::chain_pattern;
use crate::plan::lower::bind_down::{down_test, test_steps};
use crate::plan::lower::compile::{compile, down_test_of, ret_fold, stream_expand, stream_ready, stream_source, streamable};
use crate::plan::offline::relational::applies_ready;

verus! {

/// Stack of the root scope's frame.
pub const ROOT_STACK: usize = 0;
/// Stack of the expand's frames.
pub const EXPAND_STACK: usize = 1;
/// Instance id of the synthetic root's frame.
pub const ROOT_INSTANCE: u64 = 0xffff_ffff_ffff_ffff;

/// The root frame: the synthetic root, open at depth 0 for the whole document.
pub open spec fn root_frame() -> Frame {
    Frame { instance: ROOT_INSTANCE, depth: 0, active: true }
}

/// Executable streaming plan: the engine for the driver, the expand's frames and the
/// fold that collects the result.
pub struct Streaming {
    engine: Option<Engine>,
    chain: ChainId,
    extent: DownExtent,
    expand_to: ColId,
    map: Expr,
    registry: Registry,
    frames: Frames,
    result: ReturnCell,
}

impl Streaming {
    pub closed spec fn wf(&self) -> bool {
        &&& self.engine matches Some(e) ==> e.wf() && self.chain < e.spec_chain_count()
        &&& self.frames@.len() == 2
        &&& self.frames@[ROOT_STACK as int] == seq![root_frame()]
        &&& self.registry.wf()
        &&& self.result.spec_fold() matches Some(f) ==> f.spec_monoid().0 < self.registry.spec_monoid_count()
        &&& enter_ready(self.map, self.expand_to, self.registry.spec_apply_count(), self.registry.spec_params().len())
        &&& applies_ready(self.map, self.registry)
        &&& self.result.spec_fold() matches Some(f) ==> self.registry.monoid_ready(f.spec_monoid().0 as int)
    }

    /// The engine, while the driver has not taken it.
    pub closed spec fn spec_engine(&self) -> Engine {
        self.engine.unwrap()
    }

    pub closed spec fn spec_has_engine(&self) -> bool {
        self.engine is Some
    }

    pub closed spec fn spec_chain(&self) -> ChainId {
        self.chain
    }

    pub closed spec fn spec_extent(&self) -> DownExtent {
        self.extent
    }

    pub closed spec fn spec_map(&self) -> Expr {
        self.map
    }

    /// The column the expand binds each matched element to.
    pub closed spec fn spec_expand_to(&self) -> ColId {
        self.expand_to
    }

    /// The monoid of the fold, while it is live.
    pub closed spec fn spec_fold_monoid(&self) -> MonoidId {
        self.result.spec_fold().unwrap().spec_monoid()
    }

    pub closed spec fn spec_params(&self) -> Seq<ValueM> {
        self.registry.spec_params()
    }

    /// The registry of the caller's functions and parameters.
    pub closed spec fn spec_registry(&self) -> Registry {
        self.registry
    }

    /// The expand's open frames, bottom first.
    pub closed spec fn spec_open(&self) -> Seq<Frame> {
        self.frames@[EXPAND_STACK as int]
    }

    /// The fold has not been taken yet.
    pub closed spec fn spec_live(&self) -> bool {
        self.result.spec_fold() is Some
    }

    /// The fold collects a list.
    pub closed spec fn spec_collects(&self) -> bool {
        &&& self.result.spec_fold() matches Some(f)
        &&& self.registry.spec_is_list(f.spec_monoid().0 as int)
        &&& f.spec_is_list()
    }

    /// The items collected so far.
    pub closed spec fn spec_items(&self) -> Seq<ValueM> {
        self.result.spec_fold().unwrap().spec_items()
    }

    pub fn new(
        engine: Engine,
        chain: ChainId,
        extent: DownExtent,
        expand_to: ColId,
        map: Expr,
        registry: Registry,
        result: ReturnCell,
    ) -> (r: Streaming)
        requires
            engine.wf(),
            chain < engine.spec_chain_count(),
            registry.wf(),
            result.spec_fold() matches Some(f) && f.spec_monoid().0 < registry.spec_monoid_count(),
            enter_ready(map, expand_to, registry.spec_apply_count(), registry.spec_params().len()),
            applies_ready(map, registry),
            registry.monoid_ready(result.spec_fold().unwrap().spec_monoid().0 as int),
        ensures
            r.wf(),
            r.spec_has_engine(),
            r.spec_engine() == engine,
            r.spec_live(),
            r.spec_chain() == chain,
            r.spec_extent() == extent,
            r.spec_map() == map,
            r.spec_expand_to() == expand_to,
            r.spec_fold_monoid() == result.spec_fold().unwrap().spec_monoid(),
            r.spec_params() == registry.spec_params(),
            r.spec_open() == Seq::<Frame>::empty(),
            registry.spec_is_list(result.spec_fold().unwrap().spec_monoid().0 as int) && result.spec_fold().unwrap().spec_is_list()
                ==> r.spec_collects() && r.spec_items() == result.spec_fold().unwrap().spec_items(),
    {
        let mut frames = Frames::new(2);
        frames.push(ROOT_STACK, Frame::new(ROOT_INSTANCE, 0, true));
        assert(frames@[ROOT_STACK as int] =~= seq![root_frame()]);
        Streaming { engine: Some(engine), chain, extent, expand_to, map, registry, frames, result }
    }

    /// The engine, for the driver; it can be taken once.
    pub fn take_engine(&mut self) -> (r: Engine)
        requires
            old(self).wf(),
            old(self).spec_has_engine(),
        ensures
            final(self).wf(),
            !final(self).spec_has_engine(),
            r == old(self).spec_engine(),
            r.wf(),
            final(self).spec_chain() < r.spec_chain_count(),
            final(self).spec_chain() == old(self).spec_chain(),
            final(self).spec_open() == old(self).spec_open(),
            final(self).spec_live() == old(self).spec_live(),
            final(self).spec_collects() == old(self).spec_collects(),
            final(self).spec_items() == old(self).spec_items(),
    {
        self.engine.take().unwrap()
    }

    /// The chain whose starts and ends the driver reports.
    pub fn chain(&self) -> (r: ChainId)
        ensures
            r == self.spec_chain(),
    {
        self.chain
    }

    /// A match of the chain starts at `element`, at `depth`: it opens a frame, active when
    /// the element lies on the expand's move from the root, and an active match adds the
    /// folded expression's value to the result.
    pub fn enter(&mut self, instance: InstanceId, depth: u32, element: &ElementView)
        requires
            old(self).wf(),
            old(self).spec_live(),
        ensures
            final(self).wf(),
            final(self).spec_live(),
            final(self).spec_has_engine() == old(self).spec_has_engine(),
            final(self).spec_chain() == old(self).spec_chain(),
            final(self).spec_open() == old(self).spec_open().push(
                Frame { instance, depth, active: spec_down_ok(old(self).spec_extent(), 0, depth as int) },
            ),
            old(self).spec_collects() ==> final(self).spec_collects(),
            old(self).spec_collects() && !spec_down_ok(old(self).spec_extent(), 0, depth as int)
                ==> final(self).spec_items() == old(self).spec_items(),
            old(self).spec_collects() && spec_down_ok(old(self).spec_extent(), 0, depth as int) ==> {
                &&& final(self).spec_items().len() == old(self).spec_items().len() + 1
                &&& final(self).spec_items().drop_last() == old(self).spec_items()
                &&& !(old(self).spec_map() is Apply) ==> final(self).spec_items().last()
                    == spec_enter_value(old(self).spec_map(), *element, old(self).spec_params())
                &&& exists|v: Value|
                    #![trigger enter_returns(old(self).spec_map(), *element, old(self).spec_registry(), v)]
                    v@ == final(self).spec_items().last() && enter_returns(old(self).spec_map(), *element, old(self).spec_registry(), v)
            },
    {
        let parent_depth = match self.frames.peek(ROOT_STACK) {
            Some(parent) => parent.depth,
            None => 0,
        };
        let active = down_ok(self.extent, parent_depth, depth);
        self.frames.push(EXPAND_STACK, Frame::new(instance, depth, active));
        if active {
            let item = eval_at_enter(&self.map, self.expand_to, element, &self.registry);
            let ghost item_g = item;
            self.result.append(&self.registry, item);
            proof {
                if old(self).spec_collects() {
                    assert(self.spec_items().drop_last() =~= old(self).spec_items());
                    assert(enter_returns(old(self).spec_map(), *element, old(self).spec_registry(), item_g));
                }
            }
        }
    }

    /// A match of the chain ends: it closes the top frame.
    pub fn exit(&mut self, instance: InstanceId)
        requires
            old(self).wf(),
        ensures
            final(self).wf(),
            final(self).spec_has_engine() == old(self).spec_has_engine(),
            final(self).spec_chain() == old(self).spec_chain(),
            final(self).spec_live() == old(self).spec_live(),
            final(self).spec_collects() == old(self).spec_collects(),
            final(self).spec_items() == old(self).spec_items(),
            final(self).spec_open() == if old(self).spec_open().len() > 0 {
                old(self).spec_open().drop_last()
            } else {
                old(self).spec_open()
            },
    {
        let _ = self.frames.pop(EXPAND_STACK);
    }

    /// The folded result once the document has ended; it can be taken once.
    pub fn take(&mut self) -> (r: Value)
        requires
            old(self).wf(),
            old(self).spec_live(),
        ensures
            final(self).wf(),
            !final(self).spec_live(),
            old(self).spec_collects() ==> r@ == ValueM::List(old(self).spec_items()),
    {
        self.result.take()
    }
}

impl Plan {
    /// Lowers the plan onto the engine: the streaming backend. `None` when the expand's
    /// matcher is still shared with another copy of its path.
    pub fn streaming(self) -> (r: Option<Streaming>)
        requires
            streamable(self.graph, self.registry),
            stream_ready(self.graph, self.registry),
        ensures
            down_test_of(self.graph) is True ==> r is Some,
            r matches Some(s) ==> {
                &&& s.wf()
                &&& s.spec_has_engine()
                &&& s.spec_live()
                &&& s.spec_open() == Seq::<Frame>::empty()
                &&& s.spec_extent() == DownExtent::Descendant
                &&& s.spec_map() == stream_source(self.graph).1
                &&& s.spec_expand_to() == stream_expand(self.graph)->Expand_to
                &&& s.spec_fold_monoid() == ret_fold(self.graph)->Fold_monoid
                &&& s.spec_engine().spec_program().chains@[s.spec_chain() as int].steps@
                    == test_steps(down_test(stream_expand(self.graph)->Expand_path))
                &&& s.spec_params() == self.registry.spec_params()
                &&& s.spec_engine().spec_bindings()[s.spec_chain() as int].on_enter
                &&& s.spec_engine().spec_bindings()[s.spec_chain() as int].on_exit
                &&& s.spec_engine().spec_chain_pattern(s.spec_chain() as int)
                    == chain_pattern(test_steps(down_test(stream_expand(self.graph)->Expand_path)))
                &&& self.registry.spec_is_list(ret_fold(self.graph)->Fold_monoid.0 as int)
                    && self.registry.spec_identity(ret_fold(self.graph)->Fold_monoid.0 as int) == ValueM::List(Seq::empty())
                    ==> s.spec_collects() && s.spec_items() == Seq::<ValueM>::empty()
            },
    {
        compile(self)
    }
}

} // verus!
