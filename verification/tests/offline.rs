use lol_query::matcher::match_pattern::MatchPattern;
use lol_query::plan::builder::builder::{Builder, ScopeRef};
use lol_query::plan::offline::dom::Dom;
use lol_query::plan::offline::path::eval as eval_path;
use lol_query::plan::offline::path::eval_answered as eval_path_answered;
use lol_query::plan::offline::path::try_eval as try_eval_path;
use lol_query::plan::offline::path::{answer_of, Answers};
use lol_query::plan::offline::relational::eval as eval_graph;
use lol_query::plan::offline::relational::eval_answered as eval_graph_answered;
use lol_query::plan::representation::expr::{Expr, Literal};
use lol_query::plan::representation::id::{ColId, DomNodeId, MonoidId, RelationId};
use lol_query::plan::representation::path::{NodeTest, Path};
use lol_query::plan::representation::plan::Plan;
use lol_query::plan::representation::registry::{Registry, Value};
use lol_query::plan::representation::relational::{Graph, RelationalOperator, Return};
use lol_query::plan::test_util::{at, unwrap_or_empty_str};

fn frag(html: &str) -> Dom {
    Dom::parse_fragment(html)
}

fn doc(html: &str) -> Dom {
    Dom::parse_document(html)
}

fn node(dom: &Dom, key: &str) -> DomNodeId {
    at(dom, key).unwrap_or_else(|| panic!("no node for `{key}`"))
}

fn check_parent(dom: &Dom, child: &str, parent: Option<&str>) {
    assert_eq!(dom.parent(node(dom, child)), parent.map(|p| node(dom, p)));
}

fn check_first_child(dom: &Dom, parent: &str, child: Option<&str>) {
    assert_eq!(dom.first_child(node(dom, parent)), child.map(|c| node(dom, c)));
}

fn check_next(dom: &Dom, from: &str, to: Option<&str>) {
    assert_eq!(dom.next_sibling(node(dom, from)), to.map(|t| node(dom, t)));
}

fn check_prev(dom: &Dom, from: &str, to: Option<&str>) {
    assert_eq!(dom.prev_sibling(node(dom, from)), to.map(|t| node(dom, t)));
}

fn check_tag(dom: &Dom, key: &str, tag: Option<&str>) {
    assert_eq!(dom.tag(node(dom, key)), tag);
}

fn check_attr(dom: &Dom, key: &str, name: &str, value: Option<&str>) {
    assert_eq!(dom.attr(node(dom, key), name).as_deref(), value);
}

fn check_text(dom: &Dom, key: &str, text: &str) {
    assert_eq!(dom.text(node(dom, key)), text);
}

#[test]
fn list() {
    let dom = frag(r#"<ul id="list"><li id="a">A</li><li id="b">B</li><li id="c">C</li></ul>"#);
    check_parent(&dom, "@root", None);
    check_parent(&dom, "html", Some("@root"));
    check_parent(&dom, "list", Some("html"));
    check_parent(&dom, "a", Some("list"));
    check_parent(&dom, "b", Some("list"));
    check_parent(&dom, "c", Some("list"));

    check_first_child(&dom, "@root", Some("html"));
    check_first_child(&dom, "html", Some("list"));
    check_first_child(&dom, "list", Some("a"));
    check_tag(&dom, "html", Some("html"));
    check_tag(&dom, "list", Some("ul"));
    check_attr(&dom, "list", "id", Some("list"));
    check_attr(&dom, "a", "id", Some("a"));
    check_attr(&dom, "b", "id", Some("b"));
    check_attr(&dom, "c", "id", Some("c"));

    check_next(&dom, "a", Some("b"));
    check_next(&dom, "b", Some("c"));
    check_next(&dom, "c", None);
    check_prev(&dom, "c", Some("b"));
    check_prev(&dom, "b", Some("a"));
    check_prev(&dom, "a", None);
}

#[test]
fn mixed() {
    let dom = frag(r#"<div id="box">Hello <b>world</b>!</div>"#);
    check_text(&dom, "box", "Hello world!");
    check_text(&dom, "@root", "");
    check_text(&dom, "b", "world");
    check_tag(&dom, "b", Some("b"));
    check_first_child(&dom, "box", Some("b"));
}

#[test]
fn page() {
    let dom = doc("<!DOCTYPE html><html><body><p id=\"p\">x</p></body></html>");
    check_first_child(&dom, "@root", Some("html"));
    check_parent(&dom, "html", Some("@root"));
    check_parent(&dom, "p", Some("body"));
    check_attr(&dom, "p", "id", Some("p"));
    check_text(&dom, "p", "x");
}

#[test]
fn root_has_no_tag_attribute_or_sibling() {
    let dom = frag(r#"<p id="a"></p>"#);
    let root = dom.root();
    assert_eq!(dom.tag(root), None);
    assert_eq!(dom.attr(root, "id"), None);
    assert_eq!(dom.next_sibling(root), None);
    assert_eq!(dom.prev_sibling(root), None);
    assert_eq!(dom.parent(root), None);
    assert_eq!(at(&dom, "missing"), None);
}

fn css(selector: &str) -> NodeTest {
    NodeTest::matcher(MatchPattern::new().css(selector))
}

fn ids(dom: &Dom, nodes: &[DomNodeId]) -> Vec<String> {
    nodes
        .iter()
        .map(|&id| {
            if id == dom.root() {
                return "@root".to_string();
            }
            dom.attr(id, "id").unwrap_or_else(|| dom.tag(id).unwrap_or("?").to_string())
        })
        .collect()
}

fn check(dom: &Dom, source: &str, path: Path, expect: &[&str]) {
    let got = eval_path(dom, &path, node(dom, source));
    assert_eq!(ids(dom, &got), expect, "path from `{source}`");
}

#[test]
fn axes_compose_filter() {
    let dom = frag(
        r#"
            <ul id="list">
                <li id="a">A</li>
                <li id="b">
                    <span id="s">B</span>
                </li>
                <li id="c">C</li>
            </ul>
        "#,
    );

    // C — immediate children, document order
    check(&dom, "list", Path::child_axis(), &["a", "b", "c"]);

    // C* — descendants, document order (nested span before following li)
    check(&dom, "list", Path::descendants(), &["a", "b", "s", "c"]);

    // P / P* — parent, then ancestors nearest-first
    check(&dom, "s", Path::parent(), &["b"]);
    check(&dom, "s", Path::parent_axis().plus(), &["b", "list", "html", "@root"]);

    // N / B
    check(&dom, "a", Path::prev(), &[]);
    check(&dom, "a", Path::next(), &["b"]);
    check(&dom, "b", Path::prev(), &["a"]);
    check(&dom, "b", Path::next(), &["c"]);
    check(&dom, "s", Path::prev(), &[]);
    check(&dom, "s", Path::next(), &[]);
    check(&dom, "c", Path::prev(), &["b"]);
    check(&dom, "c", Path::next(), &[]);

    // N* document order; B* nearest-first
    check(&dom, "a", Path::next_axis().plus(), &["b", "c"]);
    check(&dom, "c", Path::prev_axis().plus(), &["b", "a"]);

    // compose P;N
    check(&dom, "s", Path::parent().followed_by(Path::next()), &["c"]);

    // C ; [css] — cheerio children().filter()
    check(&dom, "list", Path::child_axis().filter(css("#b")), &["b"]);
    check(&dom, "list", Path::child_axis().filter(css("span")), &[]);

    // C* ; [css]
    check(&dom, "list", Path::find(css("li")), &["a", "b", "c"]);
    check(&dom, "list", Path::find(css("#s")), &["s"]);

    // boolean test arms
    check(&dom, "list", Path::children(css("li").and(css("#b").not())), &["a", "c"]);
    check(&dom, "a", Path::test(NodeTest::True), &["a"]);
    check(&dom, "a", Path::test(NodeTest::False), &[]);

    // negative: no next sibling; empty path; filter miss
    check(&dom, "c", Path::next(), &[]);
    check(&dom, "list", Path::empty(), &[]);
    check(&dom, "list", Path::find(css("#missing")), &[]);
}

#[test]
fn union_is_boolean_and_closest_climbs() {
    let dom = frag(r#"<ul id="list"><li id="a"><b id="x"></b></li><li id="b"></li></ul>"#);
    // The same destination reached twice appears once.
    check(&dom, "a", Path::next().union(Path::next()), &["b"]);
    check(&dom, "x", Path::closest(css("li")), &["a"]);
    check(&dom, "a", Path::closest(css("li")), &["a"]);
    check(&dom, "x", Path::parents(css("ul")), &["list"]);
    check(&dom, "b", Path::siblings(NodeTest::True), &["a"]);
    check(&dom, "x", Path::parents_until(css("ul")), &["a"]);
    check(&dom, "a", Path::next_until(css("#b")), &[]);
    check(&dom, "b", Path::prev_all(NodeTest::True), &["a"]);
}

#[test]
fn closure_of_a_composite_step_reaches_every_repetition() {
    let dom = frag(r#"<ul id="list"><li id="a"><b id="x"></b></li><li id="b"><i id="y"></i></li><li id="c"></li></ul>"#);
    // (next ∪ child)*: the source, then, nearest first, what repeated steps reach.
    check(&dom, "a", Path::next_axis().union(Path::child_axis()).star(), &["a", "b", "x", "c", "y"]);
    // (parent ; next)*: each step climbs one level and moves right; none is left at `x`.
    check(&dom, "x", Path::parent_axis().followed_by(Path::next_axis()).star(), &["x", "b"]);
    // A failing test in the closure's step leaves only the source.
    check(&dom, "a", Path::child_axis().filter(NodeTest::False).star(), &["a"]);
}

#[test]
fn closure_of_a_single_step_lists_nearest_first() {
    let dom = frag(r#"<ul id="list"><li id="a"></li><li id="b"><b id="x"><i id="y"></i></b></li><li id="c"></li></ul>"#);
    // Upward: the source, its parent, grandparent, ... up to the synthetic root.
    check(&dom, "y", Path::parent_axis().star(), &["y", "x", "b", "list", "html", "@root"]);
    // Backward and forward along siblings, nearest first.
    check(&dom, "c", Path::prev_axis().star(), &["c", "b", "a"]);
    check(&dom, "a", Path::next_axis().star(), &["a", "b", "c"]);
}

#[test]
fn descendants_or_self_come_in_document_order() {
    let dom = frag(r#"<ul id="list"><li id="a"><b id="x"></b><i id="z"></i></li><li id="b"><i id="y"></i></li></ul>"#);
    check(&dom, "list", Path::child_axis().star(), &["list", "a", "x", "z", "b", "y"]);
    check(&dom, "b", Path::child_axis().star(), &["b", "y"]);
}

fn strings(value: &Value) -> Vec<String> {
    value.as_list().expect("expected List").iter().map(|v| v.as_str().expect("expected Str").to_string()).collect()
}

fn register_list_push(registry: &mut Registry) -> MonoidId {
    registry.register_monoid(Value::List(Vec::new()), |acc: Value, item: Value| {
        let Value::List(mut xs) = acc else {
            panic!("list_push monoid acc must be List");
        };
        xs.push(item);
        Value::List(xs)
    })
}

/// Plan: Root → Expand(C⁺;[.item]) → Project(Apply(unwrap, Field id)) → Fold → Return
fn item_ids_graph(registry: &mut Registry) -> Graph {
    let unwrap = registry.register_apply(unwrap_or_empty_str);
    let list = register_list_push(registry);

    let root_col = ColId::new(0);
    let el_col = ColId::new(1);
    let id_col = ColId::new(2);
    let bag_col = ColId::new(3);

    let root = RelationId::new(0);
    let items = RelationId::new(1);
    let ids = RelationId::new(2);
    let bag = RelationId::new(3);

    Graph::new(
        vec![
            RelationalOperator::root(root_col),
            RelationalOperator::expand(root, root_col, el_col, Path::find(css(".item"))),
            RelationalOperator::project(items, vec![(id_col, Expr::apply(unwrap, vec![Expr::attr(el_col, "id")]))]),
            RelationalOperator::fold(ids, Expr::col(id_col), list, bag_col),
        ],
        vec![],
        Some(Return::new(bag, Expr::col(bag_col))),
    )
}

#[test]
fn relational_test_collect_item_ids() {
    let mut registry = Registry::new();
    let graph = item_ids_graph(&mut registry);

    let flat = r#"
        <div class="item" id="a"></div>
        <span>skip</span>
        <div class="item" id="b"></div>
        <div class="item"></div>
    "#;
    let dom = Dom::parse_fragment(flat);
    assert_eq!(strings(&eval_graph(&dom, &graph, &registry)), ["a", "b", ""]);

    let nested = r#"
        <div class="item" id="outer">
            <div class="item" id="inner"></div>
        </div>
        <div class="item" id="sibling"></div>
    "#;
    let dom = Dom::parse_fragment(nested);
    assert_eq!(strings(&eval_graph(&dom, &graph, &registry)), ["outer", "inner", "sibling"]);
}

#[test]
fn unit_plan_returns_unit() {
    let registry = Registry::new();
    let graph = Graph::new(vec![RelationalOperator::root(ColId::new(0))], vec![], None);
    let dom = Dom::parse_fragment("<p></p>");
    assert!(matches!(eval_graph(&dom, &graph, &registry), Value::Unit));
}

fn check_plan(plan: &Plan, html: &str, expected: &[&str]) {
    assert_eq!(strings(&plan.eval(html)), expected);
}

fn plan_ids(scope: ScopeRef) -> Plan {
    scope.attr("id").map(unwrap_or_empty_str).fold().build_plan()
}

/// Same cases as the offline relational test: builder sugar -> plan -> offline sequences.
#[test]
fn builder_test_collect_item_ids() {
    let plan = plan_ids(Builder::new().root().find_css(".item"));

    check_plan(
        &plan,
        r#"
            <div class="item" id="a"></div>
            <span>skip</span>
            <div class="item" id="b"></div>
            <div class="item"></div>
        "#,
        &["a", "b", ""],
    );

    check_plan(
        &plan,
        r#"
            <div class="item" id="outer">
                <div class="item" id="inner"></div>
            </div>
            <div class="item" id="sibling"></div>
        "#,
        &["outer", "inner", "sibling"],
    );
}

#[test]
fn nested_expand() {
    let tree = r#"
        <div class="parent" id="p1">
            <section id="a1">
                <div class="child" id="g1"></div>
            </section>
            <div class="child" id="d1">
                <div class="child" id="g2"></div>
            </div>
        </div>
        <div class="parent" id="p2">
            <div class="child" id="d2"></div>
        </div>
        <div class="child" id="orphan"></div>
    "#;

    check_plan(&plan_ids(Builder::new().root().find_css(".parent").find_css(".child")), tree, &["g1", "d1", "g2", "d2"]);
    check_plan(&plan_ids(Builder::new().root().find_css(".parent").children().children()), tree, &["g1", "g2"]);
    check_plan(&plan_ids(Builder::new().root().find_css(".parent").children_css(".child")), tree, &["d1", "d2"]);

    let nested_parents = r#"
        <div class="parent" id="outer">
            <div class="parent" id="inner">
                <div class="child" id="c"></div>
            </div>
        </div>
    "#;
    check_plan(&plan_ids(Builder::new().root().find_css(".parent").find_css(".child")), nested_parents, &["c", "c"]);
    check_plan(&plan_ids(Builder::new().root().find_css(".parent").children_css(".child")), nested_parents, &["c"]);
}

#[test]
fn builder_tags_and_text() {
    let html = r#"<div class="item">one</div><span class="item">t<b>wo</b></span>"#;
    check_plan(&Builder::new().root().find_css(".item").tag().fold().build_plan(), html, &["div", "span"]);
    check_plan(&Builder::new().root().find_css(".item").text().fold().build_plan(), html, &["one", "two"]);
}

#[test]
fn unwrap_or_empty_str_reads_null_as_empty() {
    assert_eq!(unwrap_or_empty_str(&[Value::Null]).as_str(), Some(""));
    assert_eq!(unwrap_or_empty_str(&[Value::str("x")]).as_str(), Some("x"));
}

#[test]
fn a_projection_of_the_root_row_can_be_returned() {
    let registry = Registry::new();
    let root_col = ColId::new(0);
    let tag_col = ColId::new(1);
    let name_col = ColId::new(2);
    let graph = Graph::new(
        vec![
            RelationalOperator::root(root_col),
            RelationalOperator::project(
                RelationId::new(0),
                vec![(tag_col, Expr::tag(root_col)), (name_col, Expr::literal(Literal::str("plan")))],
            ),
        ],
        vec![],
        Some(Return::new(RelationId::new(1), Expr::col(name_col))),
    );
    let dom = Dom::parse_fragment("<p></p>");
    match eval_graph(&dom, &graph, &registry) {
        Value::Str(s) => assert_eq!(s, "plan"),
        _ => panic!("expected a string"),
    }
}

#[test]
fn attributes_and_text_come_from_the_node_itself() {
    let dom = frag(r#"<div id="a" title="first">one<b id="b" title="second">two</b></div>"#);
    let a = node(&dom, "a");
    let b = node(&dom, "b");
    assert_eq!(dom.attr(a, "title").as_deref(), Some("first"));
    assert_eq!(dom.attr(b, "title").as_deref(), Some("second"));
    assert_eq!(dom.attr(b, "missing"), None);
    assert_eq!(dom.attr(dom.root(), "id"), None);
    assert_eq!(dom.text(a), "onetwo");
    assert_eq!(dom.text(b), "two");
    assert_eq!(dom.text(dom.root()), "");
}

#[test]
fn answered_path_follows_the_given_selector_answers() {
    let dom = frag(r#"<p id="a"></p><p id="b"></p>"#);
    // Nodes: root, html, a, b. The answers say `p` holds on `b` only.
    let answers = Answers { entries: vec![("p".to_string(), vec![false, false, false, true])] };
    let got = eval_path_answered(&dom, &Path::find(css("p")), dom.root(), &answers);
    assert_eq!(ids(&dom, &got), ["b"]);
    // With scraper's own answers both paragraphs match.
    let got = eval_path(&dom, &Path::find(css("p")), dom.root());
    assert_eq!(ids(&dom, &got), ["a", "b"]);
    // A selector with no answers listed holds nowhere.
    let none = Answers { entries: vec![] };
    assert!(eval_path_answered(&dom, &Path::find(css("p")), dom.root(), &none).is_empty());
}

#[test]
fn answer_of_reads_the_first_entry_for_the_selector() {
    let answers = Answers {
        entries: vec![
            ("p".to_string(), vec![false, true]),
            ("p".to_string(), vec![true, true]),
            ("b".to_string(), vec![true]),
        ],
    };
    assert!(!answer_of(&answers, "p", 0));
    assert!(answer_of(&answers, "p", 1));
    assert!(answer_of(&answers, "b", 0));
    assert!(!answer_of(&answers, "b", 1));
    assert!(!answer_of(&answers, "i", 0));
}

#[test]
fn answered_graph_follows_the_given_selector_answers() {
    let mut registry = Registry::new();
    let graph = item_ids_graph(&mut registry);
    let dom = frag(r#"<div class="item" id="a"></div><div class="item" id="b"></div>"#);
    // Nodes: root, html, a, b. Answers that hold on `b` alone give only its id.
    let answers = Answers { entries: vec![(".item".to_string(), vec![false, false, false, true])] };
    assert_eq!(strings(&eval_graph_answered(&dom, &graph, &registry, &answers)), ["b"]);
    assert_eq!(strings(&eval_graph(&dom, &graph, &registry)), ["a", "b"]);
}

#[test]
fn selector_answers_list_each_node_by_id() {
    let dom = frag(r#"<p id="a"></p><div id="d"></div><p id="b"></p>"#);
    // Nodes: root, html, a, d, b.
    assert_eq!(dom.selector_answers("p"), vec![false, false, true, false, true]);
    assert_eq!(dom.selector_answers("html > div"), vec![false, false, false, true, false]);
    assert!(dom.selector_answers("p[").is_empty());
}

#[test]
fn try_eval_refuses_a_selector_that_does_not_parse() {
    let dom = frag(r#"<p id="a"></p>"#);
    assert!(try_eval_path(&dom, &Path::find(css("p[")), dom.root()).is_none());
    let found = try_eval_path(&dom, &Path::find(css("p")), dom.root()).expect("selector parses");
    assert_eq!(ids(&dom, &found), ["a"]);

    let good = plan_ids(Builder::new().root().find_css(".item"));
    let value = good.try_eval(r#"<div class="item" id="x"></div>"#).expect("selector parses");
    assert_eq!(strings(&value), ["x"]);
    let bad = plan_ids(Builder::new().root().find_css(".item["));
    assert!(bad.try_eval(r#"<div class="item" id="x"></div>"#).is_none());
}
