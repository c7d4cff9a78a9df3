//! Lowers a finalized plan onto the engine and activation frames: the flat form
//! `Root -> Expand(C+ ; test) -> (Project?) -> Fold -> Return`.

use vstd::prelude::*;
use crate::element_view::{spec_get_attribute, ElementView};
use crate::engine::engine::Engine;
use crate::plan::lower::bind_down::{bind_chain, down_test, lowerable, spec_classify_path, take_down_expand, test_steps};
use crate::plan::physical::down::DownExtent;
use crate::plan::representation::expr::{Expr, Literal, Projection};
use crate::plan::representation::id::{ColId, RelationId};
use crate::plan::representation::path::Path;
use crate::plan::representation::plan::Plan;
use crate::plan::representation::registry::{literal_value, Registry, Value, ValueM};
use crate::plan::representation::relational::{Graph, RelationalOperator, Return};
use crate::plan::offline::relational::applies_ready;
use crate::plan::runtime::fold::{FoldAcc, ReturnCell};
use crate::plan::shell::streaming::Streaming;

verus! {

broadcast use vstd::std_specs::vec::group_vec_axioms;

/// The expression can be computed when an element starts: no unbound column, no text
/// (which needs the element's end), fields of the expand destination only, and only
/// registered functions and set parameters.
pub open spec fn enter_ready(e: Expr, to: ColId, applies: nat, params: nat) -> bool
    decreases e,
{
    match e {
        Expr::Literal(_) => true,
        Expr::Parameter(id) => id.0 < params,
        Expr::Col(_) => false,
        Expr::Field { node, projection } => node == to && !(projection is Text),
        Expr::Apply { op, args } => {
            &&& op.0 < applies
            &&& forall|i: int| 0 <= i < args@.len() ==> enter_ready(#[trigger] args@[i], to, applies, params)
        },
    }
}

/// The value of an expression without `Apply` at the start of `element`.
pub open spec fn spec_enter_value(e: Expr, element: ElementView, params: Seq<ValueM>) -> ValueM {
    match e {
        Expr::Literal(l) => literal_value(l),
        Expr::Parameter(id) => params[id.0 as int],
        Expr::Field { node, projection } => match projection {
            Projection::Attr(name) => match spec_get_attribute(element.spec_attributes(), name@) {
                Some(v) => ValueM::Str(v),
                None => ValueM::Null,
            },
            Projection::Tag => ValueM::Str(element.spec_tag_name()),
            Projection::Text => ValueM::Unit,
        },
        _ => ValueM::Unit,
    }
}

/// Index of the first projected output bound to `col`, or -1.
pub open spec fn first_output(outputs: Seq<(ColId, Expr)>, col: ColId) -> int
    decreases outputs.len(),
{
    if outputs.len() == 0 {
        -1
    } else if outputs[0].0 == col {
        0
    } else {
        let k = first_output(outputs.drop_first(), col);
        if k < 0 { -1 } else { k + 1 }
    }
}

pub open spec fn rel_at(g: Graph, id: RelationId) -> Option<RelationalOperator> {
    if id.0 < g.relations@.len() {
        Some(g.relations@[id.0 as int])
    } else {
        None
    }
}

/// The expand feeding the fold and the expression folded per expand row: the fold's own
/// map over an expand, or the projected expression of the mapped column over a project.
pub open spec fn fold_source(g: Graph, fold_input: RelationId, fold_map: Expr) -> Option<(RelationId, Expr)> {
    match rel_at(g, fold_input) {
        Some(RelationalOperator::Expand { .. }) => Some((fold_input, fold_map)),
        Some(RelationalOperator::Project { input, outputs }) => match fold_map {
            Expr::Col(c) => {
                let k = first_output(outputs@, c);
                if k >= 0 {
                    Some((input, outputs@[k].1))
                } else {
                    None
                }
            },
            _ => None,
        },
        _ => None,
    }
}

/// The plan has the flat streaming form: it returns the output of a fold whose rows come
/// from a descendant expand out of the root (through at most one project), the folded
/// expression is ready at element start, and the expand's test goes to the engine.
pub open spec fn streamable(g: Graph, registry: Registry) -> bool {
    &&& g.sinks@.len() == 0
    &&& match g.ret {
        Some(ret) => match rel_at(g, ret.input) {
            Some(RelationalOperator::Fold { input: fold_input, map, monoid, output }) => {
                &&& ret.value == Expr::Col(output)
                &&& monoid.0 < registry.spec_monoid_count()
                &&& match fold_source(g, fold_input, map) {
                    Some((expand_id, m)) => match rel_at(g, expand_id) {
                        Some(RelationalOperator::Expand { input, to, path, .. }) => {
                            &&& rel_at(g, input) matches Some(RelationalOperator::Root { .. })
                            &&& spec_classify_path(path) == Some(DownExtent::Descendant)
                            &&& lowerable(down_test(path))
                            &&& enter_ready(m, to, registry.spec_apply_count(), registry.spec_params().len())
                        },
                        _ => false,
                    },
                    None => false,
                }
            },
            _ => false,
        },
        None => false,
    }
}

/// `r` is a value of `e` at the start of `element`: the value the element's start
/// determines (`spec_enter_value`), and for `Apply` a value that the caller's function may
/// return when called on a value of each argument, the arguments in order.
pub open spec fn enter_returns(e: Expr, element: ElementView, reg: Registry, r: Value) -> bool
    decreases e,
{
    match e {
        Expr::Apply { op, args } => exists|vals: &[Value]|
            {
                &&& #[trigger] reg.spec_apply_returns(op.0 as int, vals, r)
                &&& vals@.len() == args@.len()
                &&& forall|k: int| 0 <= k < args@.len() ==> enter_returns(#[trigger] args@[k], element, reg, vals@[k])
            },
        _ => r@ == spec_enter_value(e, element, reg.spec_params()),
    }
}

/// A value of an `Apply` at an element start whose arguments are not themselves `Apply`s
/// is a value the caller's function may return on the arguments' values at that start,
/// in argument order: the function's `k`-th argument is the value of the `k`-th argument
/// expression.
pub proof fn law_enter_apply_arguments_in_order(e: Expr, element: ElementView, reg: Registry, r: Value)
    requires
        e is Apply,
        forall|k: int| 0 <= k < e->Apply_args@.len() ==> !(#[trigger] e->Apply_args@[k] is Apply),
        enter_returns(e, element, reg, r),
    ensures
        exists|vals: &[Value]|
            {
                &&& #[trigger] reg.spec_apply_returns(e->Apply_op.0 as int, vals, r)
                &&& vals@.len() == e->Apply_args@.len()
                &&& forall|k: int| 0 <= k < vals@.len() ==> (#[trigger] vals@[k])@ == spec_enter_value(e->Apply_args@[k], element, reg.spec_params())
            },
{
    let args = e->Apply_args;
    let vals = choose|vals: &[Value]|
        {
            &&& #[trigger] reg.spec_apply_returns(e->Apply_op.0 as int, vals, r)
            &&& vals@.len() == args@.len()
            &&& forall|k: int| 0 <= k < args@.len() ==> enter_returns(#[trigger] args@[k], element, reg, vals@[k])
        };
    assert forall|k: int| 0 <= k < vals@.len() implies (#[trigger] vals@[k])@ == spec_enter_value(args@[k], element, reg.spec_params()) by {
        assert(enter_returns(args@[k], element, reg, vals@[k]));
        assert(!(args@[k] is Apply));
    }
}

/// Evaluates `expr` at the start of `element`, the expand destination bound to `expand_to`.
#[verifier::loop_isolation(false)]
pub fn eval_at_enter(expr: &Expr, expand_to: ColId, element: &ElementView, registry: &Registry) -> (r: Value)
    requires
        enter_ready(*expr, expand_to, registry.spec_apply_count(), registry.spec_params().len()),
        applies_ready(*expr, *registry),
    ensures
        !(*expr is Apply) ==> r@ == spec_enter_value(*expr, *element, registry.spec_params()),
        enter_returns(*expr, *element, *registry, r),
    decreases expr,
{
    match expr {
        Expr::Literal(lit) => Value::from_literal(lit.copy()),
        Expr::Parameter(id) => registry.param(*id).copy(),
        Expr::Col(_) => Value::Unit,
        Expr::Field { node: _, projection } => match projection {
            Projection::Attr(name) => match element.get_attribute(name.as_str()) {
                Some(v) => Value::Str(v),
                None => Value::Null,
            },
            Projection::Tag => Value::Str(element.tag_name()),
            Projection::Text => Value::Unit,
        },
        Expr::Apply { op, args } => {
            let mut vals: Vec<Value> = Vec::new();
            let mut i: usize = 0;
            while i < args.len()
                invariant
                    i <= args@.len(),
                    forall|j: int| 0 <= j < args@.len() ==> enter_ready(#[trigger] args@[j], expand_to, registry.spec_apply_count(), registry.spec_params().len()),
                    forall|j: int| 0 <= j < args@.len() ==> applies_ready(#[trigger] args@[j], *registry),
                    vals@.len() == i,
                    forall|j: int| 0 <= j < i ==> enter_returns(#[trigger] args@[j], *element, *registry, vals@[j]),
                decreases args@.len() - i,
            {
                proof {
                    assert(decreases_to!(*expr => args@[i as int]));
                }
                vals.push(eval_at_enter(&args[i], expand_to, element, registry));
                i = i + 1;
            }
            let sl = vals.as_slice();
            assert(registry.spec_apply_accepts(op.0 as int, sl));
            let r = registry.apply(*op, sl);
            proof {
                assert(sl@ == vals@);
                assert forall|j: int| 0 <= j < args@.len() implies enter_returns(#[trigger] args@[j], *element, *registry, sl@[j]) by {
                    assert(sl@[j] == vals@[j]);
                }
            }
            r
        },
    }
}

/// The caller functions the streaming plan calls may be called on what they get: the
/// folded expression's `Apply`s on their arguments, the fold's append on anything.
pub open spec fn stream_ready(g: Graph, registry: Registry) -> bool {
    &&& applies_ready(stream_source(g).1, registry)
    &&& registry.monoid_ready(ret_fold(g)->Fold_monoid.0 as int)
}

/// The fold that the plan returns.
pub open spec fn ret_fold(g: Graph) -> RelationalOperator {
    rel_at(g, g.ret.unwrap().input).unwrap()
}

/// The expand feeding the returned fold, and the expression folded per row.
pub open spec fn stream_source(g: Graph) -> (RelationId, Expr) {
    fold_source(g, ret_fold(g)->Fold_input, ret_fold(g)->Fold_map).unwrap()
}

/// The expand operator of a streamable plan.
pub open spec fn stream_expand(g: Graph) -> RelationalOperator {
    rel_at(g, stream_source(g).0).unwrap()
}

fn is_project(op: &RelationalOperator) -> (r: bool)
    ensures
        r == op is Project,
{
    match op {
        RelationalOperator::Project { .. } => true,
        _ => false,
    }
}

/// The leaf test of a streamable plan's expand.
pub open spec fn down_test_of(g: Graph) -> crate::plan::representation::path::NodeTest {
    down_test(stream_expand(g)->Expand_path)
}

/// Moves relation `id` out of `relations`, leaving a root in its place.
fn take_rel(relations: &mut Vec<RelationalOperator>, id: RelationId) -> (r: RelationalOperator)
    requires
        id.0 < old(relations)@.len(),
    ensures
        r == old(relations)@[id.0 as int],
        final(relations)@.len() == old(relations)@.len(),
        forall|i: int| 0 <= i < old(relations)@.len() && i != id.0 ==> #[trigger] final(relations)@[i] == old(relations)@[i],
{
    let n = relations.len();
    let i = id.0 as usize;
    let mut out = RelationalOperator::Root { output: ColId::new(0) };
    std::mem::swap(&mut out, &mut relations[i]);
    out
}

proof fn lemma_first_output(outputs: Seq<(ColId, Expr)>, col: ColId)
    ensures
        -1 <= first_output(outputs, col) < outputs.len(),
        first_output(outputs, col) >= 0 ==> outputs[first_output(outputs, col)].0 == col,
    decreases outputs.len(),
{
    if outputs.len() > 0 && outputs[0].0 != col {
        lemma_first_output(outputs.drop_first(), col);
    }
}

/// Moves the first projected expression bound to `col` out of `outputs`.
fn take_output(outputs: Vec<(ColId, Expr)>, col: ColId) -> (r: Expr)
    requires
        first_output(outputs@, col) >= 0,
    ensures
        r == outputs@[first_output(outputs@, col)].1,
{
    let ghost k = first_output(outputs@, col);
    proof {
        lemma_first_output(outputs@, col);
        assert(outputs@.skip(0) =~= outputs@);
    }
    let ghost original = outputs@;
    let mut outs = outputs;
    let mut i: usize = 0;
    while i < outs.len()
        invariant
            i <= k,
            k < outs@.len(),
            outs@ == original,
            original == outputs@,
            k == first_output(original, col),
            first_output(outs@.skip(i as int), col) == k - i,
        decreases outs@.len() - i,
    {
        assert(outs@.skip(i as int).drop_first() =~= outs@.skip(i + 1));
        assert(outs@.skip(i as int)[0] == outs@[i as int]);
        if outs[i].0 == col {
            assert(first_output(outs@.skip(i as int), col) == 0);
            assert(k == i);
            let taken = outs.swap_remove(i);
            return taken.1;
        }
        i = i + 1;
    }
    assert(false);
    Expr::Col(col)
}

/// Compiles a flat streamable plan: a descendant expand from the root, folded.
///
/// `None` when the expand's matcher is still shared with another copy of its path: its
/// predicates cannot then be moved to the engine.
pub fn compile(plan: Plan) -> (r: Option<Streaming>)
    requires
        streamable(plan.graph, plan.registry),
        stream_ready(plan.graph, plan.registry),
    ensures
        down_test(stream_expand(plan.graph)->Expand_path) is True ==> r is Some,
        r matches Some(s) ==> {
            &&& s.wf()
            &&& s.spec_has_engine()
            &&& s.spec_live()
            &&& s.spec_open() == Seq::<crate::plan::physical::frames::Frame>::empty()
            &&& s.spec_extent() == DownExtent::Descendant
            &&& s.spec_map() == stream_source(plan.graph).1
            &&& s.spec_expand_to() == stream_expand(plan.graph)->Expand_to
            &&& s.spec_fold_monoid() == ret_fold(plan.graph)->Fold_monoid
            &&& s.spec_params() == plan.registry.spec_params()
            &&& s.spec_engine().spec_bindings()[s.spec_chain() as int].on_enter
            &&& s.spec_engine().spec_bindings()[s.spec_chain() as int].on_exit
            &&& s.spec_engine().spec_chain_pattern(s.spec_chain() as int)
                == crate::engine::program::chain_pattern(test_steps(down_test(stream_expand(plan.graph)->Expand_path)))
            &&& s.spec_engine().spec_program().chains@[s.spec_chain() as int].steps@
                == test_steps(down_test(stream_expand(plan.graph)->Expand_path))
            &&& plan.registry.spec_is_list(ret_fold(plan.graph)->Fold_monoid.0 as int)
                && plan.registry.spec_identity(ret_fold(plan.graph)->Fold_monoid.0 as int) == ValueM::List(Seq::empty())
                ==> s.spec_collects() && s.spec_items() == Seq::<ValueM>::empty()
        },
{
    let ghost g = plan.graph;
    let Plan { graph, registry } = plan;
    proof {
        use_type_invariant(&registry);
    }
    let Graph { relations, sinks: _, ret } = graph;
    let mut relations = relations;
    let ret = ret.unwrap();
    let fold = take_rel(&mut relations, ret.input);
    let RelationalOperator::Fold { input: fold_input, map: fold_map, monoid, output: _ } = fold else {
        return None;
    };
    assert(fold_source(g, fold_input, fold_map) is Some);
    assert(fold_input.0 != ret.input.0);
    assert(ret_fold(g) == (RelationalOperator::Fold { input: fold_input, map: fold_map, monoid, output: ret_fold(g)->Fold_output }));
    assert(relations@[fold_input.0 as int] == g.relations@[fold_input.0 as int]);
    let n = relations.len();
    let fi = fold_input.0 as usize;
    assert(fi == fold_input.0);
    let project = is_project(&relations[fi]);
    assert(project <==> g.relations@[fold_input.0 as int] is Project);
    let (expand_id, map) = if project {
        let op = take_rel(&mut relations, fold_input);
        match op {
            RelationalOperator::Project { input, outputs } => {
                assert(fold_map is Col);
                let Expr::Col(col) = fold_map else {
                    return None;
                };
                assert(first_output(outputs@, col) >= 0);
                let e = take_output(outputs, col);
                assert(stream_source(g) == (input, e));
                (input, e)
            },
            _ => return None,
        }
    } else {
        assert(stream_source(g) == (fold_input, fold_map));
        (fold_input, fold_map)
    };
    assert(expand_id == stream_source(g).0);
    assert(expand_id.0 != ret.input.0);
    assert(project ==> expand_id.0 != fold_input.0);
    assert(relations@[expand_id.0 as int] == g.relations@[expand_id.0 as int]);
    let op = take_rel(&mut relations, expand_id);
    let RelationalOperator::Expand { input: _, from: _, to, path } = op else {
        return None;
    };
    let down = match take_down_expand(path) {
        Some(d) => d,
        None => return None,
    };
    let extent = down.extent;
    let mut engine = Engine::new();
    let chain = bind_chain(&mut engine, down);
    proof {
        engine.lemma_bindings_len();
    }
    engine.on_enter(chain);
    proof {
        engine.lemma_bindings_len();
    }
    assert(engine.spec_bindings()[chain as int].on_enter);
    engine.on_exit(chain);
    proof {
        engine.lemma_bindings_len();
    }
    let result = ReturnCell::from_fold(FoldAcc::new(&registry, monoid));
    let s = Streaming::new(engine, chain, extent, to, map, registry, result);
    assert(s.spec_extent() == DownExtent::Descendant);
    assert(s.spec_map() == stream_source(g).1);
    assert(s.spec_engine().spec_bindings()[s.spec_chain() as int].on_enter);
    assert(s.spec_engine().spec_bindings()[s.spec_chain() as int].on_exit);
    assert(s.spec_engine().spec_chain_pattern(s.spec_chain() as int)
                == crate::engine::program::chain_pattern(test_steps(down_test(stream_expand(g)->Expand_path))));
    Some(s)
}

/// Whether `e` can be computed at element start (see [`enter_ready`]).
#[verifier::loop_isolation(false)]
pub fn is_enter_ready(e: &Expr, to: ColId, applies: usize, params: usize) -> (r: bool)
    ensures
        r == enter_ready(*e, to, applies as nat, params as nat),
    decreases e,
{
    match e {
        Expr::Literal(_) => true,
        Expr::Parameter(id) => id.0 < params as u64,
        Expr::Col(_) => false,
        Expr::Field { node, projection } => node.0 == to.0 && match projection {
            Projection::Text => false,
            _ => true,
        },
        Expr::Apply { op, args } => {
            if op.0 >= applies as u64 {
                return false;
            }
            let mut k: usize = 0;
            while k < args.len()
                invariant
                    k <= args@.len(),
                    forall|j: int| 0 <= j < k ==> enter_ready(#[trigger] args@[j], to, applies as nat, params as nat),
                    decreases_to!(*e => *args),
                decreases args@.len() - k,
            {
                proof {
                    assert(decreases_to!(*e => args@[k as int]));
                }
                if !is_enter_ready(&args[k], to, applies, params) {
                    return false;
                }
                k = k + 1;
            }
            true
        },
    }
}

fn first_output_exec(outputs: &Vec<(ColId, Expr)>, col: ColId) -> (r: Option<usize>)
    ensures
        match r {
            Some(k) => k == first_output(outputs@, col) && k < outputs@.len(),
            None => first_output(outputs@, col) < 0,
        },
{
    proof {
        lemma_first_output(outputs@, col);
    }
    let mut k: usize = 0;
    assert(outputs@.skip(0) =~= outputs@);
    while k < outputs.len()
        invariant
            k <= outputs@.len(),
            first_output(outputs@, col) == if first_output(outputs@.skip(k as int), col) < 0 { -1 } else { k + first_output(outputs@.skip(k as int), col) },
        decreases outputs@.len() - k,
    {
        assert(outputs@.skip(k as int).drop_first() =~= outputs@.skip(k + 1));
        assert(outputs@.skip(k as int)[0] == outputs@[k as int]);
        if outputs[k].0.0 == col.0 {
            return Some(k);
        }
        k = k + 1;
    }
    None
}

fn is_lowerable(path: &Path) -> (r: bool)
    ensures
        r == lowerable(down_test(*path)),
{
    match path {
        Path::Compose(_, right) => match &**right {
            Path::Test(test) => match test {
                crate::plan::representation::path::NodeTest::True => true,
                crate::plan::representation::path::NodeTest::Match(pattern) => pattern.validate(),
                _ => false,
            },
            _ => true,
        },
        _ => true,
    }
}

/// Whether the plan has the flat streaming form that [`compile`] takes.
pub fn is_streamable(g: &Graph, registry: &Registry) -> (r: bool)
    ensures
        r == streamable(*g, *registry),
{
    if g.sinks.len() != 0 {
        return false;
    }
    let ret = match &g.ret {
        Some(ret) => ret,
        None => return false,
    };
    let n = g.relations.len();
    if ret.input.0 >= n as u64 {
        return false;
    }
    let (fold_input, fold_map, monoid, output) = match &g.relations[ret.input.0 as usize] {
        RelationalOperator::Fold { input, map, monoid, output } => (*input, map, *monoid, *output),
        _ => return false,
    };
    let returns_output = match &ret.value {
        Expr::Col(c) => c.0 == output.0,
        _ => false,
    };
    if !returns_output || monoid.0 >= registry.monoid_count() as u64 {
        return false;
    }
    if fold_input.0 >= n as u64 {
        return false;
    }
    let (expand_id, map) = match &g.relations[fold_input.0 as usize] {
        RelationalOperator::Expand { .. } => (fold_input, fold_map),
        RelationalOperator::Project { input, outputs } => match fold_map {
            Expr::Col(c) => match first_output_exec(outputs, *c) {
                Some(k) => (*input, &outputs[k].1),
                None => return false,
            },
            _ => return false,
        },
        _ => return false,
    };
    if expand_id.0 >= n as u64 {
        return false;
    }
    match &g.relations[expand_id.0 as usize] {
        RelationalOperator::Expand { input, to, path, .. } => {
            if input.0 >= n as u64 {
                return false;
            }
            let from_root = match &g.relations[input.0 as usize] {
                RelationalOperator::Root { .. } => true,
                _ => false,
            };
            let descendant = match crate::plan::lower::bind_down::classify_down_path(path) {
                Some(DownExtent::Descendant) => true,
                _ => false,
            };
            from_root && descendant && is_lowerable(path) && is_enter_ready(map, *to, registry.apply_count(), registry.param_count())
        },
        _ => false,
    }
}

} // verus!
