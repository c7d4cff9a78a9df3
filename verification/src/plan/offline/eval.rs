//! Offline backend of a finalized plan: parse the HTML, evaluate the plan on it.

use vstd::prelude::*;
use crate::plan::representation::plan::Plan;
use crate::plan::representation::registry::{Value, ValueM};
use super::dom::{element_tree, html_fragment_walk, Dom};
use super::relational::{evaluable, relations_answers, returns_on_rows, selectors_parse};
use crate::plan::representation::id::ColId;

verus! {

impl Plan {
    /// Parses `html` as a fragment and evaluates the plan on the resulting document, with
    /// each selector test answered by scraper.
    pub fn eval(&self, html: &str) -> (r: Value)
        requires
            evaluable(self.graph, self.registry),
            selectors_parse(self.graph),
        ensures
            self.graph.ret is None ==> r@ == ValueM::Unit,
            self.graph.ret matches Some(ret) ==> exists|rows: Seq<Seq<(ColId, ValueM)>>|
            #[trigger] returns_on_rows(
                element_tree(html_fragment_walk(html@)),
                self.graph,
                self.registry,
                ret,
                rows,
                r@,
                relations_answers(html@, true, self.graph.relations@),
            ),
    {
        let dom = Dom::parse_fragment(html);
        super::relational::eval(&dom, &self.graph, &self.registry)
    }

    /// Evaluates the plan on `html` parsed as a fragment, as `eval` does; `None` when a
    /// selector that the evaluation meets does not parse.
    pub fn try_eval(&self, html: &str) -> (r: Option<Value>)
        requires
            evaluable(self.graph, self.registry),
        ensures
            r is Some <==> selectors_parse(self.graph),
            r matches Some(v) ==> {
                &&& self.graph.ret is None ==> v@ == ValueM::Unit
                &&& self.graph.ret matches Some(ret) ==> exists|rows: Seq<Seq<(ColId, ValueM)>>|
                    #[trigger] returns_on_rows(
                        element_tree(html_fragment_walk(html@)),
                        self.graph,
                        self.registry,
                        ret,
                        rows,
                        v@,
                        relations_answers(html@, true, self.graph.relations@),
                    )
            },
    {
        if super::relational::graph_parses(&self.graph, &self.registry) {
            Some(self.eval(html))
        } else {
            None
        }
    }
}

} // verus!
