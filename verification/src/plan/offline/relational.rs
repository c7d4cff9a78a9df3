//! Offline relational denotation over a parsed document.
//!
//! Evaluates a frozen plan graph to the value of its `Return`. Expand copies the source row
//! and binds the destination column, so nested expands keep the outer columns.

use vstd::prelude::*;
use crate::plan::representation::expr::{Expr, Projection};
use crate::plan::representation::id::{ColId, DomNodeId, RelationId};
use crate::plan::representation::registry::{literal_value, Registry, Value, ValueM};
use crate::plan::representation::relational::{Graph, RelationalOperator, Return};
use super::dom::{node_attr, node_text, Dom, NodeM};
use super::path::{add_path_answers, distinct_within, offline_path, path_answers, path_parses, path_result, path_selectors_parse, Answers};

verus! {

broadcast use vstd::std_specs::vec::group_vec_axioms;

/// Column bindings: `true` for a column that holds a node.
pub type Schema = Map<ColId, bool>;

/// The value bound to `col`: the last binding wins.
pub open spec fn lookup(row: Seq<(ColId, Value)>, col: ColId) -> Option<Value>
    decreases row.len(),
{
    if row.len() == 0 {
        None
    } else if row.last().0 == col {
        Some(row.last().1)
    } else {
        lookup(row.drop_last(), col)
    }
}

/// The expression yields a node: it copies a node column.
pub open spec fn node_expr(s: Schema, e: Expr) -> bool {
    match e {
        Expr::Col(c) => s.contains_key(c) && s[c],
        _ => false,
    }
}

/// The schema of a projection's outputs over input schema `s` (later outputs win).
pub open spec fn project_schema(s: Schema, outputs: Seq<(ColId, Expr)>) -> Schema
    decreases outputs.len(),
{
    if outputs.len() == 0 {
        Map::empty()
    } else {
        project_schema(s, outputs.drop_last()).insert(outputs.last().0, node_expr(s, outputs.last().1))
    }
}

/// The columns of the rows of relation `i`.
pub open spec fn schema(g: Graph, i: int) -> Schema
    decreases i,
{
    if 0 <= i < g.relations@.len() {
        match g.relations@[i] {
            RelationalOperator::Root { output } => Map::empty().insert(output, true),
            RelationalOperator::Expand { input, to, .. } => if input.0 < i {
                schema(g, input.0 as int).insert(to, true)
            } else {
                Map::empty()
            },
            RelationalOperator::Project { input, outputs } => if input.0 < i {
                project_schema(schema(g, input.0 as int), outputs@)
            } else {
                Map::empty()
            },
            RelationalOperator::Fold { output, .. } => Map::empty().insert(output, false),
            _ => Map::empty(),
        }
    } else {
        Map::empty()
    }
}

/// The expression only reads bound columns, node fields of node columns, registered
/// functions and set parameters.
pub open spec fn expr_ok(e: Expr, s: Schema, applies: nat, params: nat) -> bool
    decreases e,
{
    match e {
        Expr::Literal(_) => true,
        Expr::Parameter(id) => id.0 < params,
        Expr::Col(c) => s.contains_key(c),
        Expr::Field { node, .. } => s.contains_key(node) && s[node],
        Expr::Apply { op, args } => {
            &&& op.0 < applies
            &&& forall|k: int| 0 <= k < args@.len() ==> expr_ok(#[trigger] args@[k], s, applies, params)
        },
    }
}

/// Every `Apply` in `e` names a registered function that may be called on any argument
/// list of its arity.
pub open spec fn applies_ready(e: Expr, reg: Registry) -> bool
    decreases e,
{
    match e {
        Expr::Apply { op, args } => {
            &&& reg.apply_ready(op.0 as int, args@.len())
            &&& forall|k: int| 0 <= k < args@.len() ==> applies_ready(#[trigger] args@[k], reg)
        },
        _ => true,
    }
}

/// The caller functions that relation `i` and the relations it reads call may be called
/// on what they are given: every `Apply` on its arguments, every fold's append on any
/// accumulator and item.
pub open spec fn rel_ready(g: Graph, i: int, reg: Registry) -> bool
    decreases i,
{
    &&& 0 <= i < g.relations@.len()
    &&& match g.relations@[i] {
        RelationalOperator::Root { .. } => true,
        RelationalOperator::Expand { input, .. } => input.0 < i && rel_ready(g, input.0 as int, reg),
        RelationalOperator::Project { input, outputs } => {
            &&& input.0 < i
            &&& rel_ready(g, input.0 as int, reg)
            &&& forall|k: int| 0 <= k < outputs@.len() ==> applies_ready((#[trigger] outputs@[k]).1, reg)
        },
        RelationalOperator::Fold { input, map, monoid, .. } => {
            &&& input.0 < i
            &&& rel_ready(g, input.0 as int, reg)
            &&& applies_ready(map, reg)
            &&& reg.monoid_ready(monoid.0 as int)
        },
        _ => false,
    }
}

/// Relation `i` and every relation it reads can be evaluated offline.
pub open spec fn rel_ok(g: Graph, i: int, r: Registry) -> bool
    decreases i,
{
    &&& 0 <= i < g.relations@.len()
    &&& match g.relations@[i] {
        RelationalOperator::Root { .. } => true,
        RelationalOperator::Expand { input, from, path, .. } => {
            &&& input.0 < i
            &&& rel_ok(g, input.0 as int, r)
            &&& schema(g, input.0 as int).contains_key(from)
            &&& schema(g, input.0 as int)[from]
            &&& offline_path(path)
        },
        RelationalOperator::Project { input, outputs } => {
            &&& input.0 < i
            &&& rel_ok(g, input.0 as int, r)
            &&& forall|k: int| 0 <= k < outputs@.len() ==> expr_ok(
                (#[trigger] outputs@[k]).1,
                schema(g, input.0 as int),
                r.spec_apply_count(),
                r.spec_params().len(),
            )
        },
        RelationalOperator::Fold { input, map, monoid, .. } => {
            &&& input.0 < i
            &&& rel_ok(g, input.0 as int, r)
            &&& expr_ok(map, schema(g, input.0 as int), r.spec_apply_count(), r.spec_params().len())
            &&& monoid.0 < r.spec_monoid_count()
        },
        _ => false,
    }
}

/// Relation `i` has exactly one row: a root or a fold, or a projection of such a relation.
pub open spec fn single_row(g: Graph, i: int) -> bool
    decreases i,
{
    if 0 <= i < g.relations@.len() {
        match g.relations@[i] {
            RelationalOperator::Root { .. } => true,
            RelationalOperator::Fold { .. } => true,
            RelationalOperator::Project { input, .. } => input.0 < i && single_row(g, input.0 as int),
            _ => false,
        }
    } else {
        false
    }
}

/// The graph can be evaluated offline: its return reads a relation of one row through
/// supported operators.
pub open spec fn evaluable(g: Graph, r: Registry) -> bool {
    match g.ret {
        None => true,
        Some(ret) => {
            &&& rel_ok(g, ret.input.0 as int, r)
            &&& rel_ready(g, ret.input.0 as int, r)
            &&& applies_ready(ret.value, r)
            &&& single_row(g, ret.input.0 as int)
            &&& expr_ok(ret.value, schema(g, ret.input.0 as int), r.spec_apply_count(), r.spec_params().len())
        },
    }
}

/// Every selector of the expand paths that relation `i` reads through parses.
pub open spec fn rel_selectors_parse(g: Graph, i: int) -> bool
    decreases i,
{
    if 0 <= i < g.relations@.len() {
        match g.relations@[i] {
            RelationalOperator::Root { .. } => true,
            RelationalOperator::Expand { input, path, .. } => input.0 < i && path_selectors_parse(path) && rel_selectors_parse(g, input.0 as int),
            RelationalOperator::Project { input, .. } => input.0 < i && rel_selectors_parse(g, input.0 as int),
            RelationalOperator::Fold { input, .. } => input.0 < i && rel_selectors_parse(g, input.0 as int),
            _ => false,
        }
    } else {
        false
    }
}

/// Every selector that evaluating the graph's return meets parses.
pub open spec fn selectors_parse(g: Graph) -> bool {
    match g.ret {
        None => true,
        Some(ret) => rel_selectors_parse(g, ret.input.0 as int),
    }
}

/// Whether every selector that evaluating `graph`'s return meets parses.
pub fn graph_parses(graph: &Graph, registry: &Registry) -> (r: bool)
    requires
        evaluable(*graph, *registry),
    ensures
        r == selectors_parse(*graph),
{
    match &graph.ret {
        None => true,
        Some(ret) => {
            let count = graph.relations.len();
            let mut i = ret.input.0 as usize;
            loop
                invariant
                    graph.ret == Some(*ret),
                    0 <= i < graph.relations@.len(),
                    rel_ok(*graph, i as int, *registry),
                    rel_selectors_parse(*graph, ret.input.0 as int) == rel_selectors_parse(*graph, i as int),
                decreases i,
            {
                match &graph.relations[i] {
                    RelationalOperator::Expand { input, path, .. } => {
                        if !path_parses(path) {
                            return false;
                        }
                        i = input.0 as usize;
                    },
                    RelationalOperator::Project { input, .. } => {
                        i = input.0 as usize;
                    },
                    RelationalOperator::Fold { input, .. } => {
                        i = input.0 as usize;
                    },
                    _ => {
                        return true;
                    },
                }
            }
        },
    }
}

/// The value is a node of a document of `n` nodes.
pub open spec fn node_within(v: Value, n: nat) -> bool {
    match v {
        Value::Node(id) => id.0 < n,
        _ => false,
    }
}

/// The row binds every column of `s`, node columns to nodes of a document of `n` nodes.
pub open spec fn row_fits(row: Seq<(ColId, Value)>, s: Schema, n: nat) -> bool {
    forall|c: ColId| #[trigger] s.contains_key(c) ==> match lookup(row, c) {
        Some(v) => s[c] ==> node_within(v, n),
        None => false,
    }
}

/// A row's model: each column with the model of its value.
pub open spec fn row_m(row: Seq<(ColId, Value)>) -> Seq<(ColId, ValueM)> {
    Seq::new(row.len(), |k: int| (row[k].0, row[k].1@))
}

/// The models of rows.
pub open spec fn rows_m(rows: Seq<Row>) -> Seq<Seq<(ColId, ValueM)>> {
    Seq::new(rows.len(), |k: int| row_m(rows[k].cols@))
}

/// The value a row model binds to `col`: the last binding wins.
pub open spec fn lookup_m(row: Seq<(ColId, ValueM)>, col: ColId) -> Option<ValueM>
    decreases row.len(),
{
    if row.len() == 0 {
        None
    } else if row.last().0 == col {
        Some(row.last().1)
    } else {
        lookup_m(row.drop_last(), col)
    }
}

/// The node a row binds to `col`; the root where it binds no node.
pub open spec fn source_m(row: Seq<(ColId, ValueM)>, col: ColId) -> int {
    match lookup_m(row, col) {
        Some(ValueM::Node(x)) => x as int,
        _ => 0,
    }
}

/// The value of `e` on `row` where the plan and the document determine it: literals,
/// parameters, columns, and the tag, attributes and text of node columns. `Apply` results
/// come from the caller's functions and are left open (`None`).
pub open spec fn expr_m(d: Seq<NodeM>, row: Seq<(ColId, ValueM)>, e: Expr, params: Seq<ValueM>) -> Option<ValueM> {
    match e {
        Expr::Literal(lit) => Some(literal_value(lit)),
        Expr::Parameter(id) => Some(params[id.0 as int]),
        Expr::Col(c) => lookup_m(row, c),
        Expr::Field { node, projection } => match lookup_m(row, node) {
            Some(ValueM::Node(x)) => match projection {
                Projection::Tag => Some(tag_value(d, x as int)),
                Projection::Attr(name) => Some(
                    match node_attr(d, x as int, name@) {
                        Some(v) => ValueM::Str(v),
                        None => ValueM::Null,
                    },
                ),
                Projection::Text => Some(ValueM::Str(node_text(d, x as int))),
            },
            _ => None,
        },
        _ => None,
    }
}

/// `r` is a value of `e` on `row`: the value where the plan and the document determine
/// it (`expr_m`), and for `Apply` a value that the caller's function may return when
/// called on a value of each argument, the arguments in order.
pub open spec fn expr_returns(d: Seq<NodeM>, row: Seq<(ColId, ValueM)>, e: Expr, reg: Registry, r: Value) -> bool
    decreases e,
{
    match e {
        Expr::Apply { op, args } => exists|vals: &[Value]|
            {
                &&& #[trigger] reg.spec_apply_returns(op.0 as int, vals, r)
                &&& vals@.len() == args@.len()
                &&& forall|k: int| 0 <= k < args@.len() ==> expr_returns(d, row, #[trigger] args@[k], reg, vals@[k])
            },
        _ => expr_m(d, row, e, reg.spec_params()) matches Some(v) ==> r@ == v,
    }
}

/// A value of an `Apply` whose arguments' values the plan and the document determine is
/// a value the caller's function may return on exactly those values, in argument order:
/// the function's `k`-th argument is the value of the `k`-th argument expression.
pub proof fn law_apply_arguments_in_order(d: Seq<NodeM>, row: Seq<(ColId, ValueM)>, e: Expr, reg: Registry, r: Value)
    requires
        e is Apply,
        forall|k: int| 0 <= k < e->Apply_args@.len() ==> #[trigger] expr_m(d, row, e->Apply_args@[k], reg.spec_params()) is Some,
        forall|k: int| 0 <= k < e->Apply_args@.len() ==> !(#[trigger] e->Apply_args@[k] is Apply),
        expr_returns(d, row, e, reg, r),
    ensures
        exists|vals: &[Value]|
            {
                &&& #[trigger] reg.spec_apply_returns(e->Apply_op.0 as int, vals, r)
                &&& vals@.len() == e->Apply_args@.len()
                &&& forall|k: int| 0 <= k < vals@.len() ==> (#[trigger] vals@[k])@ == expr_m(d, row, e->Apply_args@[k], reg.spec_params())->0
            },
{
    let args = e->Apply_args;
    let vals = choose|vals: &[Value]|
        {
            &&& #[trigger] reg.spec_apply_returns(e->Apply_op.0 as int, vals, r)
            &&& vals@.len() == args@.len()
            &&& forall|k: int| 0 <= k < args@.len() ==> expr_returns(d, row, #[trigger] args@[k], reg, vals@[k])
        };
    assert forall|k: int| 0 <= k < vals@.len() implies (#[trigger] vals@[k])@ == expr_m(d, row, args@[k], reg.spec_params())->0 by {
        assert(expr_returns(d, row, args@[k], reg, vals@[k]));
        assert(expr_m(d, row, args@[k], reg.spec_params()) is Some);
        assert(!(args@[k] is Apply));
    }
}

/// `row` extended by each of `dests` bound to `to`, in order.
pub open spec fn extend_row(row: Seq<(ColId, ValueM)>, dests: Seq<DomNodeId>, to: ColId) -> Seq<Seq<(ColId, ValueM)>> {
    Seq::new(dests.len(), |j: int| row.push((to, ValueM::Node(dests[j].0))))
}

/// The rows of an expand: each input row extended by its destinations, rows in order.
pub open spec fn expand_m(ins: Seq<Seq<(ColId, ValueM)>>, dests: Seq<Seq<DomNodeId>>, to: ColId) -> Seq<Seq<(ColId, ValueM)>>
    decreases ins.len(),
{
    if ins.len() == 0 || dests.len() == 0 {
        Seq::empty()
    } else {
        expand_m(ins.drop_last(), dests.drop_last(), to) + extend_row(ins.last(), dests.last(), to)
    }
}

/// `out` is the projection of `row` onto `outputs`: one column per output, in order, each
/// holding the output's value where that is determined.
pub open spec fn project_row_ok(d: Seq<NodeM>, row: Seq<(ColId, ValueM)>, outputs: Seq<(ColId, Expr)>, reg: Registry, out: Seq<(ColId, ValueM)>) -> bool {
    &&& out.len() == outputs.len()
    &&& forall|q: int| 0 <= q < out.len() ==> {
        &&& (#[trigger] out[q]).0 == outputs[q].0
        &&& expr_m(d, row, outputs[q].1, reg.spec_params()) matches Some(v) ==> out[q].1 == v
        &&& exists|v: Value| #![trigger expr_returns(d, row, outputs[q].1, reg, v)] v@ == out[q].1 && expr_returns(d, row, outputs[q].1, reg, v)
    }
}

/// `rows` are the projections of the rows `ins`, one for one.
pub open spec fn project_rows_ok(d: Seq<NodeM>, ins: Seq<Seq<(ColId, ValueM)>>, outputs: Seq<(ColId, Expr)>, reg: Registry, rows: Seq<Seq<(ColId, ValueM)>>) -> bool {
    &&& rows.len() == ins.len()
    &&& forall|k: int| 0 <= k < rows.len() ==> project_row_ok(d, ins[k], outputs, reg, #[trigger] rows[k])
}

/// `accs` are the accumulators of a fold of monoid `m` over the `map` values `items` of
/// `rows`: from the identity, each one the append of the next item to the one before.
pub open spec fn fold_chain(
    reg: Registry,
    m: int,
    rows: Seq<Seq<(ColId, ValueM)>>,
    map: Expr,
    d: Seq<NodeM>,
    items: Seq<Value>,
    accs: Seq<Value>,
) -> bool {
    &&& items.len() == rows.len()
    &&& accs.len() == rows.len() + 1
    &&& accs[0]@ == reg.spec_identity(m)
    &&& forall|k: int| 0 <= k < items.len() ==> {
        &&& expr_m(d, rows[k], map, reg.spec_params()) matches Some(v) ==> (#[trigger] items[k])@ == v
        &&& expr_returns(d, rows[k], map, reg, items[k])
        &&& reg.spec_append_returns(m, accs[k], items[k], accs[k + 1])
    }
}

/// `out` is what a fold of monoid `m` over the `map` values of `rows` may give.
pub open spec fn fold_ok(reg: Registry, m: int, rows: Seq<Seq<(ColId, ValueM)>>, map: Expr, d: Seq<NodeM>, out: ValueM) -> bool {
    exists|items: Seq<Value>, accs: Seq<Value>|
        #[trigger] fold_chain(reg, m, rows, map, d, items, accs) && out == accs.last()@
}

/// `rows` are rows that relation `i` of `g` may have on document `d`: the root row; an
/// expand's input rows, each extended by the destinations of its path; a projection of
/// each input row; or the one row of a fold over the input rows.
pub open spec fn rel_rows(d: Seq<NodeM>, g: Graph, i: int, reg: Registry, rows: Seq<Seq<(ColId, ValueM)>>, ans: Seq<(Seq<char>, Seq<bool>)>) -> bool
    decreases i,
{
    if 0 <= i < g.relations@.len() {
        match g.relations@[i] {
            RelationalOperator::Root { output } => rows == seq![seq![(output, ValueM::Node(0))]],
            RelationalOperator::Expand { input, from, to, path } => input.0 < i && exists|ins: Seq<Seq<(ColId, ValueM)>>, dests: Seq<Seq<DomNodeId>>|
                #![trigger expand_m(ins, dests, to)]
                {
                    &&& rel_rows(d, g, input.0 as int, reg, ins, ans)
                    &&& dests.len() == ins.len()
                    &&& forall|k: int| 0 <= k < ins.len() ==> path_result(d, path, source_m(ins[k], from), #[trigger] dests[k], ans)
                    &&& rows == expand_m(ins, dests, to)
                },
            RelationalOperator::Project { input, outputs } => input.0 < i && exists|ins: Seq<Seq<(ColId, ValueM)>>|
                #![trigger project_rows_ok(d, ins, outputs@, reg, rows)]
                rel_rows(d, g, input.0 as int, reg, ins, ans) && project_rows_ok(d, ins, outputs@, reg, rows),
            RelationalOperator::Fold { input, map, monoid, output } => input.0 < i && exists|ins: Seq<Seq<(ColId, ValueM)>>|
                #![trigger fold_ok(reg, monoid.0 as int, ins, map, d, rows[0][0].1)]
                {
                    &&& rel_rows(d, g, input.0 as int, reg, ins, ans)
                    &&& rows.len() == 1
                    &&& rows[0].len() == 1
                    &&& rows[0][0].0 == output
                    &&& fold_ok(reg, monoid.0 as int, ins, map, d, rows[0][0].1)
                },
            _ => false,
        }
    } else {
        false
    }
}

/// `rows` are the one row of the relation that `ret` reads, and `r` is the value of the
/// returned expression on it, where that is determined.
pub open spec fn returns_on_rows(d: Seq<NodeM>, g: Graph, reg: Registry, ret: Return, rows: Seq<Seq<(ColId, ValueM)>>, r: ValueM, ans: Seq<(Seq<char>, Seq<bool>)>) -> bool {
    &&& rel_rows(d, g, ret.input.0 as int, reg, rows, ans)
    &&& rows.len() == 1
    &&& expr_m(d, rows[0], ret.value, reg.spec_params()) matches Some(v) ==> r == v
    &&& exists|v: Value| #![trigger expr_returns(d, rows[0], ret.value, reg, v)] v@ == r && expr_returns(d, rows[0], ret.value, reg, v)
}

/// The models of a row's bindings agree with the row's own.
proof fn lemma_lookup_m(row: Seq<(ColId, Value)>, c: ColId)
    ensures
        match lookup(row, c) {
            Some(v) => lookup_m(row_m(row), c) == Some(v@),
            None => lookup_m(row_m(row), c) is None,
        },
    decreases row.len(),
{
    if row.len() > 0 {
        assert(row_m(row).drop_last() =~= row_m(row.drop_last()));
        lemma_lookup_m(row.drop_last(), c);
    }
}

/// One row: the bound columns, in binding order.
pub struct Row {
    pub cols: Vec<(ColId, Value)>,
}

/// Evaluates `graph`'s return on `dom`, with the selector tests answered by `ans`;
/// `Unit` when the graph returns nothing.
pub fn eval_answered(dom: &Dom, graph: &Graph, registry: &Registry, ans: &Answers) -> (r: Value)
    requires
        evaluable(*graph, *registry),
    ensures
        graph.ret is None ==> r@ == ValueM::Unit,
        graph.ret matches Some(ret) ==> exists|rows: Seq<Seq<(ColId, ValueM)>>|
            #[trigger] returns_on_rows(dom@, *graph, *registry, ret, rows, r@, ans@),
{
    match &graph.ret {
        None => Value::Unit,
        Some(ret) => {
            let rows = eval_rel(dom, graph, registry, ret.input, ans);
            let r = eval_expr(dom, &rows[0].cols, &ret.value, registry, Ghost(schema(*graph, ret.input.0 as int)));
            proof {
                assert(rows_m(rows@)[0] == row_m(rows@[0].cols@));
                assert(expr_returns(dom@, rows_m(rows@)[0], ret.value, *registry, r));
                assert(returns_on_rows(dom@, *graph, *registry, *ret, rows_m(rows@), r@, ans@));
            }
            r
        },
    }
}

/// The answers, on the document parsed from `source`, of the selectors of the expand
/// paths of `rels`, in relation order.
pub open spec fn relations_answers(source: Seq<char>, fragment: bool, rels: Seq<RelationalOperator>) -> Seq<(Seq<char>, Seq<bool>)>
    decreases rels.len(),
{
    if rels.len() == 0 {
        Seq::empty()
    } else {
        relations_answers(source, fragment, rels.drop_last()) + match rels.last() {
            RelationalOperator::Expand { path, .. } => path_answers(source, fragment, path),
            _ => Seq::empty(),
        }
    }
}

/// Evaluates `graph`'s return on `dom`, with each selector test answered by scraper on
/// `dom`'s source; `Unit` when the graph returns nothing.
pub fn eval(dom: &Dom, graph: &Graph, registry: &Registry) -> (r: Value)
    requires
        evaluable(*graph, *registry),
        selectors_parse(*graph),
    ensures
        graph.ret is None ==> r@ == ValueM::Unit,
        graph.ret matches Some(ret) ==> exists|rows: Seq<Seq<(ColId, ValueM)>>|
            #[trigger] returns_on_rows(dom@, *graph, *registry, ret, rows, r@, relations_answers(dom.spec_source(), dom.spec_fragment(), graph.relations@)),
{
    let ghost src = dom.spec_source();
    let ghost frag = dom.spec_fragment();
    let mut ans = Answers { entries: Vec::new() };
    let mut i: usize = 0;
    proof {
        assert(graph.relations@.take(0) =~= Seq::<RelationalOperator>::empty());
    }
    while i < graph.relations.len()
        invariant
            i <= graph.relations@.len(),
            src == dom.spec_source(),
            frag == dom.spec_fragment(),
            ans@ == relations_answers(src, frag, graph.relations@.take(i as int)),
        decreases graph.relations@.len() - i,
    {
        proof {
            assert(graph.relations@.take(i + 1).drop_last() =~= graph.relations@.take(i as int));
        }
        if let RelationalOperator::Expand { path, .. } = &graph.relations[i] {
            add_path_answers(dom, path, &mut ans);
        }
        assert(ans@ =~= relations_answers(src, frag, graph.relations@.take(i + 1)));
        i += 1;
    }
    proof {
        assert(graph.relations@.take(i as int) =~= graph.relations@);
    }
    eval_answered(dom, graph, registry, &ans)
}

/// The value bound to `col` in `row`.
fn find_col(row: &Vec<(ColId, Value)>, col: ColId) -> (r: Option<&Value>)
    ensures
        match lookup(row@, col) {
            Some(v) => r == Some(&v),
            None => r is None,
        },
{
    let mut k: usize = row.len();
    assert(row@.take(k as int) =~= row@);
    while k > 0
        invariant
            k <= row@.len(),
            lookup(row@, col) == lookup(row@.take(k as int), col),
        decreases k,
    {
        assert(row@.take(k as int).drop_last() =~= row@.take(k - 1));
        if row[k - 1].0 == col {
            return Some(&row[k - 1].1);
        }
        k = k - 1;
    }
    None
}

proof fn lemma_lookup_take_all(row: Seq<(ColId, Value)>)
    ensures
        row.take(row.len() as int) == row,
{
    assert(row.take(row.len() as int) =~= row);
}

/// The value of a `Tag` projection of node `x`: its tag name, `Null` for the root.
pub open spec fn tag_value(d: Seq<NodeM>, x: int) -> ValueM {
    match d[x].tag {
        Some(t) => ValueM::Str(t),
        None => ValueM::Null,
    }
}

/// Evaluates `e` on `row`, whose columns fit `s`.
fn eval_expr(dom: &Dom, row: &Vec<(ColId, Value)>, e: &Expr, registry: &Registry, Ghost(s): Ghost<Schema>) -> (r: Value)
    requires
        expr_ok(*e, s, registry.spec_apply_count(), registry.spec_params().len()),
        applies_ready(*e, *registry),
        row_fits(row@, s, dom@.len()),
    ensures
        node_expr(s, *e) ==> node_within(r, dom@.len()),
        *e matches Expr::Literal(lit) ==> r@ == literal_value(lit),
        *e matches Expr::Parameter(id) ==> r@ == registry.spec_params()[id.0 as int],
        *e matches Expr::Col(c) ==> r@ == lookup(row@, c).unwrap()@,
        *e matches Expr::Field { node, projection } ==> (projection is Tag ==> r@ == tag_value(
            dom@,
            lookup(row@, node).unwrap()->Node_0.0 as int,
        )),
        expr_m(dom@, row_m(row@), *e, registry.spec_params()) matches Some(v) ==> r@ == v,
        expr_returns(dom@, row_m(row@), *e, *registry, r),
    decreases e,
{
    proof {
        lemma_lookup_take_all(row@);
        match *e {
            Expr::Col(c) => lemma_lookup_m(row@, c),
            Expr::Field { node, .. } => {
                lemma_lookup_m(row@, node);
                if let Some(v) = lookup(row@, node) {
                    if let ValueM::Node(x) = v@ {
                        lemma_node_view(v, x);
                    }
                }
            },
            _ => {},
        }
    }
    match e {
        Expr::Literal(lit) => Value::from_literal(lit.copy()),
        Expr::Parameter(id) => registry.param(*id).copy(),
        Expr::Col(c) => {
            assert(s.contains_key(*c));
            match find_col(row, *c) {
                Some(v) => v.copy(),
                None => Value::Unit,
            }
        },
        Expr::Field { node, projection } => {
            assert(s.contains_key(*node));
            let id = match find_col(row, *node) {
                Some(Value::Node(id)) => *id,
                _ => DomNodeId::new(0),
            };
            match projection {
                Projection::Attr(name) => match dom.attr(id, name.as_str()) {
                    Some(v) => Value::Str(v),
                    None => Value::Null,
                },
                Projection::Text => Value::Str(dom.text(id)),
                Projection::Tag => match dom.tag(id) {
                    Some(t) => Value::str(t),
                    None => Value::Null,
                },
            }
        },
        Expr::Apply { op, args } => {
            let mut vals: Vec<Value> = Vec::new();
            let mut k: usize = 0;
            while k < args.len()
                invariant
                    k <= args@.len(),
                    forall|j: int| 0 <= j < args@.len() ==> expr_ok(#[trigger] args@[j], s, registry.spec_apply_count(), registry.spec_params().len()),
                    forall|j: int| 0 <= j < args@.len() ==> applies_ready(#[trigger] args@[j], *registry),
                    vals@.len() == k,
                    row_fits(row@, s, dom@.len()),
                    decreases_to!(*e => *args),
                    forall|j: int| 0 <= j < k ==> expr_returns(dom@, row_m(row@), #[trigger] args@[j], *registry, vals@[j]),
                decreases args@.len() - k,
            {
                proof {
                    assert(decreases_to!(*e => args@[k as int]));
                }
                vals.push(eval_expr(dom, row, &args[k], registry, Ghost(s)));
                k = k + 1;
            }
            let sl = vals.as_slice();
            assert(registry.spec_apply_accepts(op.0 as int, sl));
            let r = registry.apply(*op, sl);
            proof {
                assert(sl@ == vals@);
                assert forall|j: int| 0 <= j < args@.len() implies expr_returns(dom@, row_m(row@), #[trigger] args@[j], *registry, sl@[j]) by {
                    assert(sl@[j] == vals@[j]);
                }
            }
            r
        },
    }
}

/// A deep copy of a row.
fn copy_row(row: &Vec<(ColId, Value)>) -> (r: Vec<(ColId, Value)>)
    ensures
        r@.len() == row@.len(),
        forall|k: int| 0 <= k < row@.len() ==> (#[trigger] r@[k]).0 == row@[k].0 && r@[k].1@ == row@[k].1@,
{
    let mut out: Vec<(ColId, Value)> = Vec::new();
    let mut k: usize = 0;
    while k < row.len()
        invariant
            k <= row@.len(),
            out@.len() == k,
            forall|j: int| 0 <= j < k ==> (#[trigger] out@[j]).0 == row@[j].0 && out@[j].1@ == row@[j].1@,
        decreases row@.len() - k,
    {
        out.push((row[k].0, row[k].1.copy()));
        k = k + 1;
    }
    out
}

/// Copies keep what every column is bound to.
proof fn lemma_lookup_copy(a: Seq<(ColId, Value)>, b: Seq<(ColId, Value)>, c: ColId)
    requires
        a.len() == b.len(),
        forall|k: int| 0 <= k < a.len() ==> (#[trigger] b[k]).0 == a[k].0 && b[k].1@ == a[k].1@,
    ensures
        lookup(a, c) is Some <==> lookup(b, c) is Some,
        lookup(a, c) is Some ==> lookup(b, c).unwrap()@ == lookup(a, c).unwrap()@,
    decreases a.len(),
{
    if a.len() > 0 {
        assert(b[b.len() - 1].0 == a[a.len() - 1].0);
        lemma_lookup_copy(a.drop_last(), b.drop_last(), c);
    }
}

/// A value whose model is a node is that node.
proof fn lemma_node_view(v: Value, x: u64)
    requires
        v@ == ValueM::Node(x),
    ensures
        v matches Value::Node(id) && id.0 == x,
{
    match v {
        Value::List(xs) => {
            crate::plan::representation::registry::lemma_list_view(xs);
        },
        _ => {},
    }
}

/// The rows of relation `id`.
fn eval_rel(dom: &Dom, g: &Graph, registry: &Registry, id: RelationId, ans: &Answers) -> (r: Vec<Row>)
    requires
        rel_ok(*g, id.0 as int, *registry),
        rel_ready(*g, id.0 as int, *registry),
    ensures
        forall|k: int| 0 <= k < r@.len() ==> row_fits((#[trigger] r@[k]).cols@, schema(*g, id.0 as int), dom@.len()),
        single_row(*g, id.0 as int) ==> r@.len() == 1,
        rel_rows(dom@, *g, id.0 as int, *registry, rows_m(r@), ans@),
    decreases id.0,
{
    proof {
        use_type_invariant(dom);
    }
    let count = g.relations.len();
    let i = id.0 as usize;
    let ghost s = schema(*g, id.0 as int);
    let ghost nn = dom@.len();
    let ghost d = dom@;
    let ghost params = registry.spec_params();
    match &g.relations[i] {
        RelationalOperator::Root { output } => {
            let mut cols: Vec<(ColId, Value)> = Vec::new();
            cols.push((*output, Value::Node(dom.root())));
            let mut out: Vec<Row> = Vec::new();
            out.push(Row { cols });
            proof {
                assert(row_fits(out@[0].cols@, s, nn)) by {
                    assert forall|c: ColId| #[trigger] s.contains_key(c) implies match lookup(out@[0].cols@, c) {
                        Some(v) => s[c] ==> node_within(v, nn),
                        None => false,
                    } by {
                        assert(c == *output);
                        assert(lookup(out@[0].cols@, c) == Some(Value::Node(DomNodeId(0))));
                    }
                }
                assert(row_m(out@[0].cols@) =~= seq![(*output, ValueM::Node(0))]);
                assert(rows_m(out@) =~= seq![seq![(*output, ValueM::Node(0))]]);
                assert(rel_rows(d, *g, id.0 as int, *registry, rows_m(out@), ans@));
            }
            out
        },
        RelationalOperator::Expand { input, from, to, path } => {
            let ghost si = schema(*g, input.0 as int);
            let sources = eval_rel(dom, g, registry, *input, ans);
            let ghost ins = rows_m(sources@);
            let ghost mut dg: Seq<Seq<DomNodeId>> = Seq::empty();
            let mut out: Vec<Row> = Vec::new();
            let mut k: usize = 0;
            proof {
                assert(ins.take(0) =~= Seq::<Seq<(ColId, ValueM)>>::empty());
                assert(rows_m(out@) =~= Seq::<Seq<(ColId, ValueM)>>::empty());
            }
            while k < sources.len()
                invariant
                    dom.wf(),
                    nn == dom@.len(),
                    d == dom@,
                    s == si.insert(*to, true),
                    si.contains_key(*from) && si[*from],
                    offline_path(*path),
                    k <= sources@.len(),
                    ins == rows_m(sources@),
                    dg.len() == k,
                    forall|j: int| 0 <= j < k ==> path_result(d, *path, source_m(ins[j], *from), #[trigger] dg[j], ans@),
                    rows_m(out@) == expand_m(ins.take(k as int), dg, *to),
                    forall|j: int| 0 <= j < sources@.len() ==> row_fits((#[trigger] sources@[j]).cols@, si, nn),
                    forall|j: int| 0 <= j < out@.len() ==> row_fits((#[trigger] out@[j]).cols@, s, nn),
                decreases sources@.len() - k,
            {
                let src = &sources[k];
                assert(row_fits(src.cols@, si, nn));
                assert(si.contains_key(*from));
                let source = match find_col(&src.cols, *from) {
                    Some(Value::Node(x)) => *x,
                    _ => dom.root(),
                };
                proof {
                    assert(ins[k as int] == row_m(src.cols@));
                    lemma_lookup_m(src.cols@, *from);
                    if let Some(v) = lookup(src.cols@, *from) {
                        if let ValueM::Node(x) = v@ {
                            lemma_node_view(v, x);
                        }
                    }
                    assert(source.0 == source_m(ins[k as int], *from));
                }
                let dests = super::path::eval_answered(dom, path, source, ans);
                let ghost base = rows_m(out@);
                let mut dd: usize = 0;
                proof {
                    assert(extend_row(ins[k as int], dests@.take(0), *to) =~= Seq::<Seq<(ColId, ValueM)>>::empty());
                    assert(base + extend_row(ins[k as int], dests@.take(0), *to) =~= base);
                }
                while dd < dests.len()
                    invariant
                        nn == dom@.len(),
                        s == si.insert(*to, true),
                        dd <= dests@.len(),
                        distinct_within(dests@, nn),
                        row_fits(src.cols@, si, nn),
                        ins[k as int] == row_m(src.cols@),
                        rows_m(out@) == base + extend_row(ins[k as int], dests@.take(dd as int), *to),
                        forall|j: int| 0 <= j < out@.len() ==> row_fits((#[trigger] out@[j]).cols@, s, nn),
                    decreases dests@.len() - dd,
                {
                    let dest = dests[dd];
                    let mut cols = copy_row(&src.cols);
                    let ghost copied = cols@;
                    cols.push((*to, Value::Node(dest)));
                    proof {
                        assert(dests@[dd as int].0 < nn);
                        assert forall|c: ColId| #[trigger] s.contains_key(c) implies match lookup(cols@, c) {
                            Some(v) => s[c] ==> node_within(v, nn),
                            None => false,
                        } by {
                            assert(cols@.drop_last() =~= copied);
                            if c != *to {
                                assert(si.contains_key(c));
                                lemma_lookup_copy(src.cols@, copied, c);
                                if si[c] {
                                    let v = lookup(src.cols@, c).unwrap();
                                    assert(node_within(v, nn));
                                    lemma_node_view(lookup(copied, c).unwrap(), v->Node_0.0);
                                }
                            }
                        }
                        assert(row_m(copied) =~= row_m(src.cols@));
                        assert(row_m(cols@) =~= ins[k as int].push((*to, ValueM::Node(dest.0))));
                    }
                    let ghost prev = out@;
                    out.push(Row { cols });
                    proof {
                        assert(rows_m(out@) =~= rows_m(prev).push(row_m(cols@)));
                        assert(extend_row(ins[k as int], dests@.take(dd + 1), *to) =~= extend_row(ins[k as int], dests@.take(dd as int), *to).push(
                            ins[k as int].push((*to, ValueM::Node(dest.0))),
                        ));
                        assert(rows_m(out@) =~= base + extend_row(ins[k as int], dests@.take(dd + 1), *to));
                    }
                    dd = dd + 1;
                }
                proof {
                    assert(dests@.take(dests@.len() as int) =~= dests@);
                    let next = dg.push(dests@);
                    assert(ins.take(k + 1).drop_last() =~= ins.take(k as int));
                    assert(next.drop_last() =~= dg);
                    assert(expand_m(ins.take(k + 1), next, *to) == expand_m(ins.take(k as int), dg, *to) + extend_row(ins[k as int], dests@, *to));
                    dg = next;
                }
                k = k + 1;
            }
            proof {
                assert(ins.take(ins.len() as int) =~= ins);
                assert(rel_rows(d, *g, input.0 as int, *registry, ins, ans@));
                assert(expand_m(ins, dg, *to) == rows_m(out@));
                assert(rel_rows(d, *g, id.0 as int, *registry, rows_m(out@), ans@));
            }
            out
        },
        RelationalOperator::Project { input, outputs } => {
            let ghost si = schema(*g, input.0 as int);
            let sources = eval_rel(dom, g, registry, *input, ans);
            let ghost ins = rows_m(sources@);
            let mut out: Vec<Row> = Vec::new();
            let mut k: usize = 0;
            while k < sources.len()
                invariant
                    nn == dom@.len(),
                    d == dom@,
                    params == registry.spec_params(),
                    s == project_schema(si, outputs@),
                    k <= sources@.len(),
                    ins == rows_m(sources@),
                    out@.len() == k,
                    forall|j: int| 0 <= j < k ==> project_row_ok(d, ins[j], outputs@, *registry, #[trigger] rows_m(out@)[j]),
                    forall|j: int| 0 <= j < outputs@.len() ==> expr_ok((#[trigger] outputs@[j]).1, si, registry.spec_apply_count(), registry.spec_params().len()),
                    forall|j: int| 0 <= j < outputs@.len() ==> applies_ready((#[trigger] outputs@[j]).1, *registry),
                    forall|j: int| 0 <= j < sources@.len() ==> row_fits((#[trigger] sources@[j]).cols@, si, nn),
                    forall|j: int| 0 <= j < out@.len() ==> row_fits((#[trigger] out@[j]).cols@, s, nn),
                decreases sources@.len() - k,
            {
                let src = &sources[k];
                assert(row_fits(src.cols@, si, nn));
                assert(ins[k as int] == row_m(src.cols@));
                let mut cols: Vec<(ColId, Value)> = Vec::new();
                let mut q: usize = 0;
                proof {
                    assert(outputs@.take(0) =~= Seq::<(ColId, Expr)>::empty());
                }
                while q < outputs.len()
                    invariant
                        nn == dom@.len(),
                        d == dom@,
                        params == registry.spec_params(),
                        q <= outputs@.len(),
                        ins[k as int] == row_m(src.cols@),
                        cols@.len() == q,
                        forall|j: int| 0 <= j < q ==> {
                            &&& (#[trigger] cols@[j]).0 == outputs@[j].0
                            &&& expr_m(d, ins[k as int], outputs@[j].1, params) matches Some(v) ==> cols@[j].1@ == v
                            &&& expr_returns(d, ins[k as int], outputs@[j].1, *registry, cols@[j].1)
                        },
                        forall|j: int| 0 <= j < outputs@.len() ==> expr_ok((#[trigger] outputs@[j]).1, si, registry.spec_apply_count(), registry.spec_params().len()),
                        forall|j: int| 0 <= j < outputs@.len() ==> applies_ready((#[trigger] outputs@[j]).1, *registry),
                        row_fits(src.cols@, si, nn),
                        row_fits(cols@, project_schema(si, outputs@.take(q as int)), nn),
                    decreases outputs@.len() - q,
                {
                    let v = eval_expr(dom, &src.cols, &outputs[q].1, registry, Ghost(si));
                    let ghost before = cols@;
                    let ghost prev = project_schema(si, outputs@.take(q as int));
                    cols.push((outputs[q].0, v));
                    proof {
                        assert(outputs@.take(q + 1).drop_last() =~= outputs@.take(q as int));
                        let next = project_schema(si, outputs@.take(q + 1));
                        assert(next == prev.insert(outputs@[q as int].0, node_expr(si, outputs@[q as int].1)));
                        assert forall|c: ColId| #[trigger] next.contains_key(c) implies match lookup(cols@, c) {
                            Some(w) => next[c] ==> node_within(w, nn),
                            None => false,
                        } by {
                            assert(cols@.drop_last() =~= before);
                            if c != outputs@[q as int].0 {
                                assert(prev.contains_key(c));
                            }
                        }
                        assert(cols@[q as int] == (outputs@[q as int].0, v));
                    }
                    q = q + 1;
                }
                proof {
                    assert(outputs@.take(outputs@.len() as int) =~= outputs@);
                }
                let ghost prev_out = out@;
                out.push(Row { cols });
                proof {
                    assert forall|j: int| 0 <= j < k + 1 implies project_row_ok(d, ins[j], outputs@, *registry, #[trigger] rows_m(out@)[j]) by {
                        if j < k {
                            assert(rows_m(out@)[j] == rows_m(prev_out)[j]);
                        } else {
                            let rowj = rows_m(out@)[j];
                            assert(rowj == row_m(out@[j].cols@));
                            assert forall|qq: int| 0 <= qq < rowj.len() implies {
                                &&& (#[trigger] rowj[qq]).0 == outputs@[qq].0
                                &&& expr_m(d, ins[j], outputs@[qq].1, params) matches Some(v) ==> rowj[qq].1 == v
                                &&& exists|v: Value| #![trigger expr_returns(d, ins[j], outputs@[qq].1, *registry, v)] v@ == rowj[qq].1 && expr_returns(d, ins[j], outputs@[qq].1, *registry, v)
                            } by {
                                assert(rowj[qq] == (out@[j].cols@[qq].0, out@[j].cols@[qq].1@));
                                assert(expr_returns(d, ins[j], outputs@[qq].1, *registry, out@[j].cols@[qq].1));
                            }
                        }
                    }
                }
                k = k + 1;
            }
            proof {
                assert(rel_rows(d, *g, input.0 as int, *registry, ins, ans@));
                assert(project_rows_ok(d, ins, outputs@, *registry, rows_m(out@)));
                assert(rel_rows(d, *g, id.0 as int, *registry, rows_m(out@), ans@));
            }
            out
        },
        RelationalOperator::Fold { input, map, monoid, output } => {
            let ghost si = schema(*g, input.0 as int);
            let sources = eval_rel(dom, g, registry, *input, ans);
            let ghost ins = rows_m(sources@);
            let mut acc = registry.monoid_identity(*monoid);
            let ghost mut items: Seq<Value> = Seq::empty();
            let ghost mut accs: Seq<Value> = seq![acc];
            let mut k: usize = 0;
            while k < sources.len()
                invariant
                    monoid.0 < registry.spec_monoid_count(),
                    expr_ok(*map, si, registry.spec_apply_count(), registry.spec_params().len()),
                    applies_ready(*map, *registry),
                    registry.monoid_ready(monoid.0 as int),
                    k <= sources@.len(),
                    forall|j: int| 0 <= j < sources@.len() ==> row_fits((#[trigger] sources@[j]).cols@, si, nn),
                    nn == dom@.len(),
                    d == dom@,
                    ins == rows_m(sources@),
                    fold_chain(*registry, monoid.0 as int, ins.take(k as int), *map, d, items, accs),
                    accs.last() == acc,
                decreases sources@.len() - k,
            {
                assert(row_fits(sources@[k as int].cols@, si, nn));
                let item = eval_expr(dom, &sources[k].cols, map, registry, Ghost(si));
                let ghost item_g = item;
                let ghost acc_g = acc;
                assert(registry.spec_append_accepts(monoid.0 as int, acc, item));
                acc = registry.monoid_append(*monoid, acc, item);
                proof {
                    assert(ins[k as int] == row_m(sources@[k as int].cols@));
                    let items2 = items.push(item_g);
                    let accs2 = accs.push(acc);
                    let rows2 = ins.take(k + 1);
                    assert forall|j: int| 0 <= j < items2.len() implies {
                        &&& expr_m(d, rows2[j], *map, registry.spec_params()) matches Some(v) ==> (#[trigger] items2[j])@ == v
                        &&& expr_returns(d, rows2[j], *map, *registry, items2[j])
                        &&& registry.spec_append_returns(monoid.0 as int, accs2[j], items2[j], accs2[j + 1])
                    } by {
                        if j < k {
                            assert(items2[j] == items[j]);
                            assert(ins.take(k as int)[j] == rows2[j]);
                        }
                    }
                    items = items2;
                    accs = accs2;
                }
                k = k + 1;
            }
            let mut cols: Vec<(ColId, Value)> = Vec::new();
            cols.push((*output, acc));
            let mut out: Vec<Row> = Vec::new();
            out.push(Row { cols });
            proof {
                assert forall|c: ColId| #[trigger] s.contains_key(c) implies match lookup(out@[0].cols@, c) {
                    Some(v) => s[c] ==> node_within(v, nn),
                    None => false,
                } by {
                    assert(c == *output);
                }
                assert(ins.take(ins.len() as int) =~= ins);
                assert(fold_chain(*registry, monoid.0 as int, ins, *map, d, items, accs));
                assert(rows_m(out@)[0] == row_m(out@[0].cols@));
                assert(rows_m(out@)[0][0] == (*output, accs.last()@));
                assert(fold_ok(*registry, monoid.0 as int, ins, *map, d, rows_m(out@)[0][0].1));
                assert(rel_rows(d, *g, input.0 as int, *registry, ins, ans@));
                assert(rel_rows(d, *g, id.0 as int, *registry, rows_m(out@), ans@));
            }
            out
        },
        _ => Vec::new(),
    }
}

} // verus!
