//! Typed handles that allocate columns and relations into a plan.
//!
//! Each handle owns the plan under construction and hands it on: a chain of calls lays
//! out one relation after another, and `build_plan` freezes the result.

use vstd::prelude::*;
use crate::matcher::match_pattern::MatchPattern;
use crate::plan::representation::expr::Expr;
use crate::plan::representation::id::{ColId, RelationId};
use crate::plan::representation::path::{spec_filter, spec_plus, NodeTest, Path};
use crate::plan::representation::plan::Plan;
use crate::plan::representation::registry::{Registry, Value, ValueM};
use crate::plan::representation::relational::{Graph, RelationalOperator, Return};
use crate::matcher::step::StepM;

verus! {

broadcast use vstd::std_specs::vec::group_vec_axioms;

/// The plan under construction.
pub struct Draft {
    relations: Vec<RelationalOperator>,
    next_col: u64,
    registry: Registry,
}

impl Draft {
    pub closed spec fn spec_relations(&self) -> Seq<RelationalOperator> {
        self.relations@
    }

    pub closed spec fn spec_next_col(&self) -> u64 {
        self.next_col
    }

    pub closed spec fn spec_registry(&self) -> Registry {
        self.registry
    }

    /// Room for one more relation, column and registered function.
    pub open spec fn has_room(&self) -> bool {
        &&& self.spec_relations().len() < u64::MAX
        &&& self.spec_next_col() < u64::MAX
        &&& self.spec_registry().spec_apply_count() < u64::MAX
        &&& self.spec_registry().spec_monoid_count() < u64::MAX
        &&& self.spec_registry().wf()
    }

    fn alloc_col(&mut self) -> (r: ColId)
        requires
            old(self).spec_next_col() < u64::MAX,
        ensures
            r.0 == old(self).spec_next_col(),
            final(self).spec_next_col() == old(self).spec_next_col() + 1,
            final(self).spec_relations() == old(self).spec_relations(),
            final(self).spec_registry() == old(self).spec_registry(),
    {
        let id = ColId::new(self.next_col);
        self.next_col = self.next_col + 1;
        id
    }

    fn push(&mut self, op: RelationalOperator) -> (r: RelationId)
        requires
            old(self).spec_relations().len() < u64::MAX,
        ensures
            r.0 == old(self).spec_relations().len(),
            final(self).spec_relations() == old(self).spec_relations().push(op),
            final(self).spec_next_col() == old(self).spec_next_col(),
            final(self).spec_registry() == old(self).spec_registry(),
    {
        let id = RelationId::new(self.relations.len() as u64);
        self.relations.push(op);
        id
    }
}

/// Builds a logical plan (graph and registry).
pub struct Builder {
    draft: Draft,
}

impl Builder {
    pub closed spec fn spec_draft(&self) -> Draft {
        self.draft
    }

    /// A builder holds an empty draft.
    #[verifier::type_invariant]
    spec fn fresh(&self) -> bool {
        &&& self.draft.relations@.len() == 0
        &&& self.draft.next_col == 0
        &&& self.draft.registry.wf()
        &&& self.draft.registry.spec_apply_count() == 0
        &&& self.draft.registry.spec_monoid_count() == 0
    }

    pub fn new() -> (r: Builder)
        ensures
            r.spec_draft().spec_relations() == Seq::<RelationalOperator>::empty(),
            r.spec_draft().spec_next_col() == 0,
            r.spec_draft().spec_registry().wf(),
            r.spec_draft().spec_registry().spec_apply_count() == 0,
            r.spec_draft().spec_registry().spec_monoid_count() == 0,
            r.spec_draft().spec_registry().spec_params() == Seq::<ValueM>::empty(),
    {
        Builder { draft: Draft { relations: Vec::new(), next_col: 0, registry: Registry::new() } }
    }

    /// Document-root scope: one row binding the synthetic root.
    pub fn root(self) -> (r: ScopeRef)
        ensures
            r.spec_relation().0 == 0,
            r.spec_node().0 == 0,
            r.spec_draft().spec_relations() == seq![RelationalOperator::Root { output: ColId(0) }],
            r.spec_draft().spec_next_col() == 1,
            r.spec_draft().spec_registry() == self.spec_draft().spec_registry(),
            r.spec_draft().has_room(),
    {
        proof {
            use_type_invariant(&self);
        }
        let mut draft = self.draft;
        let col = draft.alloc_col();
        let relation = draft.push(RelationalOperator::root(col));
        ScopeRef { draft, relation, node: col }
    }
}

/// Node-bearing relation handle (a selection or expand result).
pub struct ScopeRef {
    draft: Draft,
    relation: RelationId,
    node: ColId,
}

/// `op` expands `from` of `input` into `to` along `axis ; [selector]`, the selector being
/// a one-step matcher without predicate.
pub open spec fn css_expand(
    op: RelationalOperator,
    input: RelationId,
    from: ColId,
    to: ColId,
    axis: Path,
    selector: Seq<char>,
) -> bool {
    match op {
        RelationalOperator::Expand { input: i, from: f, to: t, path } => {
            &&& i == input
            &&& f == from
            &&& t == to
            &&& match path {
                Path::Compose(a, test) => {
                    &&& *a == axis
                    &&& match *test {
                        Path::Test(NodeTest::Match(pattern)) => pattern.spec_steps() == seq![StepM::Filter(selector, false)],
                        _ => false,
                    }
                },
                _ => false,
            }
        },
        _ => false,
    }
}

impl ScopeRef {
    pub closed spec fn spec_draft(&self) -> Draft {
        self.draft
    }

    pub closed spec fn spec_relation(&self) -> RelationId {
        self.relation
    }

    /// The column holding this scope's node.
    pub closed spec fn spec_node(&self) -> ColId {
        self.node
    }

    /// Correlated path expand from this scope's node column.
    pub fn expand(self, path: Path) -> (r: ScopeRef)
        requires
            self.spec_draft().has_room(),
        ensures
            r.spec_relation().0 == self.spec_draft().spec_relations().len(),
            r.spec_node().0 == self.spec_draft().spec_next_col(),
            r.spec_draft().spec_relations() == self.spec_draft().spec_relations().push(
                RelationalOperator::Expand { input: self.spec_relation(), from: self.spec_node(), to: r.spec_node(), path },
            ),
            r.spec_draft().spec_next_col() == self.spec_draft().spec_next_col() + 1,
            r.spec_draft().spec_registry() == self.spec_draft().spec_registry(),
    {
        let mut draft = self.draft;
        let to = draft.alloc_col();
        let relation = draft.push(RelationalOperator::expand(self.relation, self.node, to, path));
        ScopeRef { draft, relation, node: to }
    }

    /// Descendants passing `test` (`C+ ; test`).
    pub fn find(self, test: NodeTest) -> (r: ScopeRef)
        requires
            self.spec_draft().has_room(),
        ensures
            r.spec_relation().0 == self.spec_draft().spec_relations().len(),
            r.spec_node().0 == self.spec_draft().spec_next_col(),
            r.spec_draft().spec_relations() == self.spec_draft().spec_relations().push(
                RelationalOperator::Expand {
                    input: self.spec_relation(),
                    from: self.spec_node(),
                    to: r.spec_node(),
                    path: spec_filter(spec_plus(Path::Child), test),
                },
            ),
            r.spec_draft().spec_next_col() == self.spec_draft().spec_next_col() + 1,
            r.spec_draft().spec_registry() == self.spec_draft().spec_registry(),
    {
        self.expand(Path::find(test))
    }

    /// Descendants matching a CSS selector.
    pub fn find_css(self, selector: &str) -> (r: ScopeRef)
        requires
            self.spec_draft().has_room(),
        ensures
            r.spec_relation().0 == self.spec_draft().spec_relations().len(),
            r.spec_node().0 == self.spec_draft().spec_next_col(),
            r.spec_draft().spec_relations().len() == self.spec_draft().spec_relations().len() + 1,
            r.spec_draft().spec_relations().drop_last() == self.spec_draft().spec_relations(),
            css_expand(r.spec_draft().spec_relations().last(), self.spec_relation(), self.spec_node(), r.spec_node(), spec_plus(Path::Child), selector@),
            r.spec_draft().spec_next_col() == self.spec_draft().spec_next_col() + 1,
            r.spec_draft().spec_registry() == self.spec_draft().spec_registry(),
    {
        let pattern = MatchPattern::new().css(selector);
        proof {
            assert(pattern.spec_steps() =~= seq![StepM::Filter(selector@, false)]);
        }
        let r = self.find(NodeTest::matcher(pattern));
        proof {
            assert(r.spec_draft().spec_relations().drop_last() =~= self.spec_draft().spec_relations());
        }
        r
    }

    /// Immediate element children (`C`).
    pub fn children(self) -> (r: ScopeRef)
        requires
            self.spec_draft().has_room(),
        ensures
            r.spec_relation().0 == self.spec_draft().spec_relations().len(),
            r.spec_node().0 == self.spec_draft().spec_next_col(),
            r.spec_draft().spec_relations() == self.spec_draft().spec_relations().push(
                RelationalOperator::Expand { input: self.spec_relation(), from: self.spec_node(), to: r.spec_node(), path: Path::Child },
            ),
            r.spec_draft().spec_next_col() == self.spec_draft().spec_next_col() + 1,
            r.spec_draft().spec_registry() == self.spec_draft().spec_registry(),
    {
        self.expand(Path::child_axis())
    }

    /// Immediate children matching a CSS selector (`C ; [css]`).
    pub fn children_css(self, selector: &str) -> (r: ScopeRef)
        requires
            self.spec_draft().has_room(),
        ensures
            r.spec_relation().0 == self.spec_draft().spec_relations().len(),
            r.spec_node().0 == self.spec_draft().spec_next_col(),
            r.spec_draft().spec_relations().len() == self.spec_draft().spec_relations().len() + 1,
            r.spec_draft().spec_relations().drop_last() == self.spec_draft().spec_relations(),
            css_expand(r.spec_draft().spec_relations().last(), self.spec_relation(), self.spec_node(), r.spec_node(), Path::Child, selector@),
            r.spec_draft().spec_next_col() == self.spec_draft().spec_next_col() + 1,
            r.spec_draft().spec_registry() == self.spec_draft().spec_registry(),
    {
        let pattern = MatchPattern::new().css(selector);
        proof {
            assert(pattern.spec_steps() =~= seq![StepM::Filter(selector@, false)]);
        }
        let r = self.expand(Path::children(NodeTest::matcher(pattern)));
        proof {
            assert(r.spec_draft().spec_relations().drop_last() =~= self.spec_draft().spec_relations());
        }
        r
    }

    /// Attribute field of this scope's node (missing is `Null` at evaluation).
    pub fn attr(self, name: &str) -> (r: ValueRef)
        ensures
            r.spec_draft() == self.spec_draft(),
            r.spec_relation() == self.spec_relation(),
            r.spec_expr() matches Expr::Field { node, projection: crate::plan::representation::expr::Projection::Attr(a) }
                && node == self.spec_node() && a@ == name@,
    {
        ValueRef { draft: self.draft, relation: self.relation, expr: Expr::attr(self.node, name) }
    }

    /// Aggregated descendant text of this scope's node.
    pub fn text(self) -> (r: ValueRef)
        ensures
            r.spec_draft() == self.spec_draft(),
            r.spec_relation() == self.spec_relation(),
            r.spec_expr() == (Expr::Field { node: self.spec_node(), projection: crate::plan::representation::expr::Projection::Text }),
    {
        ValueRef { draft: self.draft, relation: self.relation, expr: Expr::text(self.node) }
    }

    /// Tag name of this scope's node.
    pub fn tag(self) -> (r: ValueRef)
        ensures
            r.spec_draft() == self.spec_draft(),
            r.spec_relation() == self.spec_relation(),
            r.spec_expr() == (Expr::Field { node: self.spec_node(), projection: crate::plan::representation::expr::Projection::Tag }),
    {
        ValueRef { draft: self.draft, relation: self.relation, expr: Expr::tag(self.node) }
    }
}

/// Scalar expression over a relation's rows (not yet folded).
pub struct ValueRef {
    draft: Draft,
    relation: RelationId,
    expr: Expr,
}

impl ValueRef {
    pub closed spec fn spec_draft(&self) -> Draft {
        self.draft
    }

    pub closed spec fn spec_relation(&self) -> RelationId {
        self.relation
    }

    pub closed spec fn spec_expr(&self) -> Expr {
        self.expr
    }

    /// Applies the caller function `f` to the value (a unary `Apply`).
    pub fn map<F: Fn(&[Value]) -> Value + 'static>(self, f: F) -> (r: ValueRef)
        requires
            self.spec_draft().has_room(),
            forall|args: &[Value]| args@.len() == 1 ==> call_requires(f, (args,)),
        ensures
            r.spec_draft().spec_registry().apply_ready(self.spec_draft().spec_registry().spec_apply_count() as int, 1),
            forall|args: &[Value], out: Value| #[trigger] r.spec_draft().spec_registry().spec_apply_returns(
                self.spec_draft().spec_registry().spec_apply_count() as int,
                args,
                out,
            ) == call_ensures(f, (args,), out),
            r.spec_draft().spec_registry().keeps_applies(&self.spec_draft().spec_registry(), self.spec_draft().spec_registry().spec_apply_count()),
            r.spec_draft().spec_registry().keeps_appends(&self.spec_draft().spec_registry(), self.spec_draft().spec_registry().spec_monoid_count()),
            r.spec_relation() == self.spec_relation(),
            r.spec_draft().spec_relations() == self.spec_draft().spec_relations(),
            r.spec_draft().spec_next_col() == self.spec_draft().spec_next_col(),
            r.spec_draft().spec_registry().wf(),
            r.spec_draft().spec_registry().spec_apply_count() == self.spec_draft().spec_registry().spec_apply_count() + 1,
            r.spec_draft().spec_registry().spec_monoid_count() == self.spec_draft().spec_registry().spec_monoid_count(),
            r.spec_expr() matches Expr::Apply { op, args } && op.0 == self.spec_draft().spec_registry().spec_apply_count()
                && args@ == seq![self.spec_expr()],
    {
        let mut draft = self.draft;
        let op = draft.registry.register_apply(f);
        let mut args: Vec<Expr> = Vec::new();
        args.push(self.expr);
        proof {
            assert(args@ =~= seq![self.expr]);
        }
        ValueRef { draft, relation: self.relation, expr: Expr::apply(op, args) }
    }

    /// Global ordered fold of the value into a list.
    pub fn fold(self) -> (r: ValueRef)
        requires
            self.spec_draft().has_room(),
        ensures
            r.spec_relation().0 == self.spec_draft().spec_relations().len(),
            r.spec_draft().spec_next_col() == self.spec_draft().spec_next_col() + 1,
            r.spec_draft().spec_registry().wf(),
            r.spec_draft().spec_registry().spec_apply_count() == self.spec_draft().spec_registry().spec_apply_count(),
            r.spec_draft().spec_registry().spec_monoid_count() == self.spec_draft().spec_registry().spec_monoid_count() + 1,
            r.spec_draft().spec_registry().spec_is_list(self.spec_draft().spec_registry().spec_monoid_count() as int),
            r.spec_draft().spec_registry().spec_identity(self.spec_draft().spec_registry().spec_monoid_count() as int) == ValueM::List(Seq::empty()),
            r.spec_draft().spec_registry().spec_params() == self.spec_draft().spec_registry().spec_params(),
            r.spec_draft().spec_registry().keeps_applies(&self.spec_draft().spec_registry(), self.spec_draft().spec_registry().spec_apply_count()),
            r.spec_draft().spec_registry().keeps_appends(&self.spec_draft().spec_registry(), self.spec_draft().spec_registry().spec_monoid_count()),
            r.spec_draft().spec_relations() == self.spec_draft().spec_relations().push(
                RelationalOperator::Fold {
                    input: self.spec_relation(),
                    map: self.spec_expr(),
                    monoid: crate::plan::representation::id::MonoidId(self.spec_draft().spec_registry().spec_monoid_count() as u64),
                    output: ColId(self.spec_draft().spec_next_col()),
                },
            ),
            r.spec_expr() == Expr::Col(ColId(self.spec_draft().spec_next_col())),
    {
        let mut draft = self.draft;
        let monoid = draft.registry.register_list_monoid();
        let output = draft.alloc_col();
        let relation = draft.push(RelationalOperator::fold(self.relation, self.expr, monoid, output));
        ValueRef { draft, relation, expr: Expr::col(output) }
    }

    /// Freezes the graph and registry into a plan that returns this (folded) value.
    pub fn build_plan(self) -> (r: Plan)
        requires
            self.spec_relation().0 < self.spec_draft().spec_relations().len(),
            self.spec_draft().spec_relations()[self.spec_relation().0 as int] is Fold,
        ensures
            r.graph.relations@ == self.spec_draft().spec_relations(),
            r.graph.sinks@.len() == 0,
            r.graph.ret == Some(Return { input: self.spec_relation(), value: self.spec_expr() }),
            r.registry == self.spec_draft().spec_registry(),
    {
        let draft = self.draft;
        let graph = Graph::new(draft.relations, Vec::new(), Some(Return::new(self.relation, self.expr)));
        Plan::new(graph, draft.registry)
    }
}

} // verus!
