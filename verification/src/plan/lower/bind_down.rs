//! Lowers an expand along `C` or `C+` to an engine chain plus parent-gated birth.

use vstd::prelude::*;
use std::rc::Rc;
use crate::engine::engine::{ChainId, Engine};
use crate::matcher::match_pattern::MatchPattern;
use crate::matcher::step::{chain_valid, steps_predicates, steps_view, Predicate, Step, StepM};
use crate::plan::physical::down::DownExtent;
use crate::plan::representation::path::{NodeTest, Path};

verus! {

broadcast use vstd::std_specs::vec::group_vec_axioms;

/// A recognized downward expand: the extent for `down_ok` and the engine chain of the
/// leaf test.
pub struct DownExpand {
    pub extent: DownExtent,
    pub steps: Vec<Step>,
    /// The predicates of the chain's filters, in filter order.
    pub predicates: Vec<Box<dyn Predicate>>,
}

/// `C` is a child move; `C ; C*` (that is `C+`) a descendant move.
pub open spec fn spec_classify_axis(path: Path) -> Option<DownExtent> {
    match path {
        Path::Child => Some(DownExtent::Child),
        Path::Compose(left, right) => if *left == Path::Child && *right == Path::Star(Box::new(Path::Child)) {
            Some(DownExtent::Descendant)
        } else {
            None
        },
        _ => None,
    }
}

/// The move of `axis ; [test]` or of an unfiltered axis.
pub open spec fn spec_classify_path(path: Path) -> Option<DownExtent> {
    match path {
        Path::Compose(left, right) => if *right is Test {
            spec_classify_axis(*left)
        } else {
            spec_classify_axis(path)
        },
        _ => spec_classify_axis(path),
    }
}

/// The leaf test of a downward path (`true` when unfiltered).
pub open spec fn down_test(path: Path) -> NodeTest {
    match path {
        Path::Compose(_, right) => match *right {
            Path::Test(t) => t,
            _ => NodeTest::True,
        },
        _ => NodeTest::True,
    }
}

/// The engine can take the test: `true`, or a matcher with a complete chain.
pub open spec fn lowerable(test: NodeTest) -> bool {
    match test {
        NodeTest::True => true,
        NodeTest::Match(pattern) => chain_valid(pattern.spec_steps()),
        _ => false,
    }
}

/// The engine chain of a lowerable test: `*` for `true`, the matcher's own steps else.
pub open spec fn test_steps(test: NodeTest) -> Seq<StepM> {
    match test {
        NodeTest::Match(pattern) => pattern.spec_steps(),
        _ => seq![StepM::Filter("*"@, false)],
    }
}

fn classify_down_axis(path: &Path) -> (r: Option<DownExtent>)
    ensures
        r == spec_classify_axis(*path),
{
    match path {
        Path::Child => Some(DownExtent::Child),
        Path::Compose(left, right) => {
            let left_child = match &**left {
                Path::Child => true,
                _ => false,
            };
            let right_star_child = match &**right {
                Path::Star(inner) => match &**inner {
                    Path::Child => true,
                    _ => false,
                },
                _ => false,
            };
            if left_child && right_star_child {
                Some(DownExtent::Descendant)
            } else {
                None
            }
        },
        _ => None,
    }
}

/// Classifies `C ; [test]`, `C+ ; [test]`, or the unfiltered forms.
pub fn classify_down_path(path: &Path) -> (r: Option<DownExtent>)
    ensures
        r == spec_classify_path(*path),
{
    match path {
        Path::Compose(left, right) => match &**right {
            Path::Test(_) => classify_down_axis(left),
            _ => classify_down_axis(path),
        },
        _ => classify_down_axis(path),
    }
}

/// The engine chain of `test` and its predicates, moved out of the test. `None` when the
/// matcher is still shared with another copy of the path, whose predicates cannot be
/// moved.
fn node_test_into_steps(test: NodeTest) -> (r: Option<(Vec<Step>, Vec<Box<dyn Predicate>>)>)
    requires
        lowerable(test),
    ensures
        test is True ==> r is Some,
        r matches Some(parts) ==> {
            &&& steps_view(parts.0@) == test_steps(test)
            &&& chain_valid(steps_view(parts.0@))
            &&& parts.1@.len() == steps_predicates(steps_view(parts.0@))
        },
{
    match test {
        NodeTest::Match(pattern) => match Rc::try_unwrap(pattern) {
            Ok(pattern) => Some(pattern.into_parts()),
            Err(_) => None,
        },
        _ => {
            let pattern = MatchPattern::new().css("*");
            proof {
                reveal_strlit("*");
                assert(pattern.spec_steps() =~= seq![StepM::Filter("*"@, false)]);
            }
            Some(pattern.into_parts())
        },
    }
}

/// Moves a downward path into its extent and engine chain. `None` when the path is not a
/// downward move, or its matcher is still shared with another copy of the path.
pub fn take_down_expand(path: Path) -> (r: Option<DownExpand>)
    requires
        spec_classify_path(path) is Some ==> lowerable(down_test(path)),
    ensures
        spec_classify_path(path) is None ==> r is None,
        spec_classify_path(path) is Some && down_test(path) is True ==> r is Some,
        r matches Some(d) ==> {
            &&& spec_classify_path(path) == Some(d.extent)
            &&& steps_view(d.steps@) == test_steps(down_test(path))
            &&& chain_valid(steps_view(d.steps@))
            &&& d.predicates@.len() == steps_predicates(steps_view(d.steps@))
        },
{
    let extent = match classify_down_path(&path) {
        Some(e) => e,
        None => return None,
    };
    let test = match path {
        Path::Compose(_, right) => match *right {
            Path::Test(t) => t,
            _ => NodeTest::True,
        },
        _ => NodeTest::True,
    };
    match node_test_into_steps(test) {
        Some((steps, predicates)) => Some(DownExpand { extent, steps, predicates }),
        None => None,
    }
}

/// Adds a chain for `expand` to `engine` and returns its id.
pub fn bind_chain(engine: &mut Engine, expand: DownExpand) -> (r: ChainId)
    requires
        old(engine).wf(),
        chain_valid(steps_view(expand.steps@)),
    ensures
        final(engine).wf(),
        r == final(engine).spec_chain_count() - 1,
        final(engine).spec_chain_count() > old(engine).spec_chain_count(),
        final(engine).spec_chain_pattern(r as int) == crate::engine::program::chain_pattern(steps_view(expand.steps@)),
        final(engine).spec_program().chains@[r as int].steps@ == steps_view(expand.steps@),
        forall|i: int| 0 <= i < old(engine).spec_chain_count() ==> #[trigger] final(engine).spec_bindings()[i] == old(engine).spec_bindings()[i],
{
    engine.add_chain(expand.steps, expand.predicates)
}

} // verus!
