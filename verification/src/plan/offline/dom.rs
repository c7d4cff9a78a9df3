//! Offline document store over a parsed HTML tree.
//!
//! Navigation follows the element algebra of plans: axes skip text and comments. The
//! synthetic plan root is the parser's document or fragment node. Plan node ids are
//! dense from 0 (the root), and every parent comes before its children.

use vstd::prelude::*;
use scraper::node::Node;
use ego_tree::iter::Edge;
use scraper::{ElementRef, Html, Selector};
use crate::plan::representation::id;

verus! {

broadcast use vstd::std_specs::vec::group_vec_axioms;

/// One edge of the depth-first walk of a parsed tree: a node starts (an element, with
/// its lowercase tag name and attributes as (namespace, local name, value); a text node,
/// with its text; any other node), or the node started last ends.
pub enum WalkEdge {
    Element(String, Vec<(String, String, String)>),
    Text(String),
    Other,
    Close,
}

/// Model of a walk edge.
pub enum WalkEdgeM {
    Element(Seq<char>, Seq<(Seq<char>, Seq<char>, Seq<char>)>),
    Text(Seq<char>),
    Other,
    Close,
}

impl View for WalkEdge {
    type V = WalkEdgeM;

    open spec fn view(&self) -> WalkEdgeM {
        match self {
            WalkEdge::Element(name, attrs) => WalkEdgeM::Element(name@, attrs_view(attrs@)),
            WalkEdge::Text(t) => WalkEdgeM::Text(t@),
            WalkEdge::Other => WalkEdgeM::Other,
            WalkEdge::Close => WalkEdgeM::Close,
        }
    }
}

pub open spec fn walk_view(w: Seq<WalkEdge>) -> Seq<WalkEdgeM> {
    w.map_values(|e: WalkEdge| e@)
}

/// The walk of the tree that the parser builds from `source` as a full document.
pub uninterp spec fn html_document_walk(source: Seq<char>) -> Seq<WalkEdgeM>;

/// The walk of the tree that the parser builds from `source` as a fragment.
pub uninterp spec fn html_fragment_walk(source: Seq<char>) -> Seq<WalkEdgeM>;

/// `Html::parse_document`, and the depth-first walk of the parsed tree from its root
/// (`NodeRef::traverse`), each edge converted one for one. The walk is a function of the
/// source alone: it is named `html_document_walk`.
#[verifier::external_body]
fn parse_document_walk(source: &str) -> (r: Vec<WalkEdge>)
    ensures
        walk_view(r@) == html_document_walk(source@),
{
    let html = Html::parse_document(source);
    html.tree.root().traverse().map(|edge| match edge {
        Edge::Open(node) => match node.value() {
            Node::Element(e) => WalkEdge::Element(e.name().to_string(), e.attrs.iter().map(|(k, v)| (k.ns.to_string(), k.local.to_string(), v.to_string())).collect()),
            Node::Text(t) => WalkEdge::Text(String::from(&**t)),
            _ => WalkEdge::Other,
        },
        Edge::Close(_) => WalkEdge::Close,
    }).collect()
}

/// `Html::parse_fragment` (the fragment wrapped under a synthetic `<html>`), and the
/// depth-first walk of the parsed tree from its root (`NodeRef::traverse`), each edge
/// converted one for one. The walk is a function of the source alone: it is named
/// `html_fragment_walk`.
#[verifier::external_body]
fn parse_fragment_walk(source: &str) -> (r: Vec<WalkEdge>)
    ensures
        walk_view(r@) == html_fragment_walk(source@),
{
    let html = Html::parse_fragment(source);
    html.tree.root().traverse().map(|edge| match edge {
        Edge::Open(node) => match node.value() {
            Node::Element(e) => WalkEdge::Element(e.name().to_string(), e.attrs.iter().map(|(k, v)| (k.ns.to_string(), k.local.to_string(), v.to_string())).collect()),
            Node::Text(t) => WalkEdge::Text(String::from(&**t)),
            _ => WalkEdge::Other,
        },
        Edge::Close(_) => WalkEdge::Close,
    }).collect()
}

/// For each edge of the walk of the document parsed from `source`, whether the element it
/// starts matches the selector group `css`; `None` for the other edges.
pub uninterp spec fn html_document_matches(source: Seq<char>, css: Seq<char>) -> Seq<Option<bool>>;

/// For each edge of the walk of the fragment parsed from `source`, whether the element it
/// starts matches the selector group `css`; `None` for the other edges.
pub uninterp spec fn html_fragment_matches(source: Seq<char>, css: Seq<char>) -> Seq<Option<bool>>;

/// `Html::parse_document` and `Selector::parse`, then `Selector::matches` on each element
/// of the depth-first walk of the parsed tree (`NodeRef::traverse`), one entry per edge.
/// `None` exactly when `css` does not parse; the entries are named
/// `html_document_matches`.
#[verifier::external_body]
fn document_matches(source: &str, css: &str) -> (r: Option<Vec<Option<bool>>>)
    ensures
        r is Some <==> css_parses(css@),
        r matches Some(v) ==> v@ == html_document_matches(source@, css@),
{
    let html = Html::parse_document(source);
    Selector::parse(css).ok().map(|selector| html.tree.root().traverse().map(|edge| match edge {
        Edge::Open(node) => ElementRef::wrap(node).map(|element| selector.matches(&element)),
        Edge::Close(_) => None,
    }).collect())
}

/// `Html::parse_fragment` and `Selector::parse`, then `Selector::matches` on each element
/// of the depth-first walk of the parsed tree (`NodeRef::traverse`), one entry per edge.
/// `None` exactly when `css` does not parse; the entries are named
/// `html_fragment_matches`.
#[verifier::external_body]
fn fragment_matches(source: &str, css: &str) -> (r: Option<Vec<Option<bool>>>)
    ensures
        r is Some <==> css_parses(css@),
        r matches Some(v) ==> v@ == html_fragment_matches(source@, css@),
{
    let html = Html::parse_fragment(source);
    Selector::parse(css).ok().map(|selector| html.tree.root().traverse().map(|edge| match edge {
        Edge::Open(node) => ElementRef::wrap(node).map(|element| selector.matches(&element)),
        Edge::Close(_) => None,
    }).collect())
}

/// The walk of `source` parsed as a fragment or as a full document.
pub open spec fn source_walk(source: Seq<char>, fragment: bool) -> Seq<WalkEdgeM> {
    if fragment {
        html_fragment_walk(source)
    } else {
        html_document_walk(source)
    }
}

/// The per-edge selector answers of `source` parsed as a fragment or as a document.
pub open spec fn source_matches(source: Seq<char>, fragment: bool, css: Seq<char>) -> Seq<Option<bool>> {
    if fragment {
        html_fragment_matches(source, css)
    } else {
        html_document_matches(source, css)
    }
}

/// The answers of the element edges, in walk order.
pub open spec fn element_answers(v: Seq<Option<bool>>) -> Seq<bool>
    decreases v.len(),
{
    if v.len() == 0 {
        Seq::empty()
    } else {
        match v.last() {
            Some(b) => element_answers(v.drop_last()).push(b),
            None => element_answers(v.drop_last()),
        }
    }
}

/// Whether selector `css` holds on each node of the document parsed from `source`, by
/// node id: `false` on the root, then the answers of the elements in the order they
/// start, which is the order of their node ids. Empty when `css` does not parse.
pub open spec fn css_answers(source: Seq<char>, fragment: bool, css: Seq<char>) -> Seq<bool> {
    if css_parses(css) {
        seq![false] + element_answers(source_matches(source, fragment, css))
    } else {
        Seq::empty()
    }
}

/// Whether `css` parses as a selector group.
pub uninterp spec fn css_parses(css: Seq<char>) -> bool;

/// Whether `css` parses as a selector group (`Selector::parse`).
#[verifier::external_body]
pub(crate) fn selector_parses(css: &str) -> (r: bool)
    ensures
        r == css_parses(css@),
{
    Selector::parse(css).is_ok()
}

/// One node of the navigation structure.
pub struct DomNode {
    parent: Option<usize>,
    /// Position among the parent's element children.
    index: usize,
    children: Vec<usize>,
    /// Lowercase tag name; `None` for the root.
    tag: Option<String>,
    /// Attributes as (namespace, local name, value).
    attrs: Vec<(String, String, String)>,
    /// Descendant text, concatenated.
    text: String,
}

/// Model of a node: its parent, position, element children, tag, attributes (namespace,
/// local name, value) and concatenated descendant text.
pub struct NodeM {
    pub parent: Option<usize>,
    pub index: usize,
    pub children: Seq<usize>,
    pub tag: Option<Seq<char>>,
    pub attrs: Seq<(Seq<char>, Seq<char>, Seq<char>)>,
    pub text: Seq<char>,
}

pub open spec fn attrs_view(a: Seq<(String, String, String)>) -> Seq<(Seq<char>, Seq<char>, Seq<char>)> {
    Seq::new(a.len(), |k: int| (a[k].0@, a[k].1@, a[k].2@))
}

/// The value of the attribute `name` (no namespace) among `attrs`.
pub open spec fn attr_value(attrs: Seq<(Seq<char>, Seq<char>, Seq<char>)>, name: Seq<char>) -> Option<Seq<char>>
    decreases attrs.len(),
{
    if attrs.len() == 0 {
        None
    } else if attrs[0].0.len() == 0 && attrs[0].1 == name {
        Some(attrs[0].2)
    } else {
        attr_value(attrs.drop_first(), name)
    }
}

/// The attribute `name` of node `x`: `None` for the root and outside the tree.
pub open spec fn node_attr(d: Seq<NodeM>, x: int, name: Seq<char>) -> Option<Seq<char>> {
    if 0 < x < d.len() {
        attr_value(d[x].attrs, name)
    } else {
        None
    }
}

/// The text of node `x`: empty for the root and outside the tree.
pub open spec fn node_text(d: Seq<NodeM>, x: int) -> Seq<char> {
    if 0 < x < d.len() {
        d[x].text
    } else {
        Seq::empty()
    }
}

/// Whether two strings hold the same characters.
pub fn same_text(a: &str, b: &str) -> (r: bool)
    ensures
        r == (a@ == b@),
{
    let n = a.unicode_len();
    if n != b.unicode_len() {
        return false;
    }
    let mut i: usize = 0;
    while i < n
        invariant
            i <= n,
            n == a@.len(),
            n == b@.len(),
            forall|j: int| 0 <= j < i ==> a@[j] == b@[j],
        decreases n - i,
    {
        if a.get_char(i) != b.get_char(i) {
            return false;
        }
        i += 1;
    }
    assert(a@ =~= b@);
    true
}

pub closed spec fn nodes_view(ns: Seq<DomNode>) -> Seq<NodeM> {
    Seq::new(ns.len(), |i: int| node_view(ns[i]))
}

pub closed spec fn node_view(n: DomNode) -> NodeM {
    NodeM {
        parent: n.parent,
        index: n.index,
        children: n.children@,
        tag: match n.tag {
            Some(t) => Some(t@),
            None => None,
        },
        attrs: attrs_view(n.attrs@),
        text: n.text@,
    }
}

/// The links of `d` form one tree rooted at 0, each parent before its children, and
/// each node's position among its parent's children is recorded.
pub open spec fn tree_wf(d: Seq<NodeM>) -> bool {
    &&& d.len() > 0
    &&& d[0].parent is None
    &&& d[0].tag is None
    &&& forall|i: int| 0 < i < d.len() ==> #[trigger] child_linked(d, i)
    &&& forall|i: int, k: int| 0 <= i < d.len() && 0 <= k < d[i].children.len() ==> #[trigger] parent_linked(d, i, k)
}

pub open spec fn child_linked(d: Seq<NodeM>, i: int) -> bool {
    match d[i].parent {
        Some(p) => {
            &&& p < i
            &&& d[i].index < d[p as int].children.len()
            &&& d[p as int].children[d[i].index as int] == i
            &&& d[i].tag is Some
        },
        None => false,
    }
}

pub open spec fn parent_linked(d: Seq<NodeM>, i: int, k: int) -> bool {
    let c = d[i].children[k] as int;
    &&& 0 < c < d.len()
    &&& d[c].parent == Some(i as usize)
    &&& d[c].index == k
}

pub open spec fn root_node() -> NodeM {
    NodeM { parent: None, index: 0, children: Seq::empty(), tag: None, attrs: Seq::empty(), text: Seq::empty() }
}

pub open spec fn with_child(n: NodeM, c: usize) -> NodeM {
    NodeM { parent: n.parent, index: n.index, children: n.children.push(c), tag: n.tag, attrs: n.attrs, text: n.text }
}

pub open spec fn with_text(n: NodeM, t: Seq<char>) -> NodeM {
    NodeM { parent: n.parent, index: n.index, children: n.children, tag: n.tag, attrs: n.attrs, text: n.text + t }
}

/// `t` appended to the text of every node listed in `open`.
pub open spec fn add_text(d: Seq<NodeM>, open: Seq<usize>, t: Seq<char>) -> Seq<NodeM> {
    Seq::new(d.len(), |i: int| if open.contains(i as usize) { with_text(d[i], t) } else { d[i] })
}

/// What a walk has built so far: the nodes, the elements it is inside of (innermost
/// last), and for each node it is inside of whether that node is an element.
pub struct WalkState {
    pub nodes: Seq<NodeM>,
    pub open: Seq<usize>,
    pub marks: Seq<bool>,
}

/// The element that a new element goes under: the innermost open one, or the root.
pub open spec fn walk_parent(s: WalkState) -> usize {
    if s.open.len() > 0 {
        s.open.last()
    } else {
        0
    }
}

/// One edge of the walk: an element becomes the next node, the last child of the element
/// it is inside of; a text node's text is appended to the text of every element it is
/// inside of; a close edge leaves the node started last.
pub open spec fn walk_step(s: WalkState, e: WalkEdgeM) -> WalkState {
    match e {
        WalkEdgeM::Element(name, attrs) => {
            let p = walk_parent(s);
            let id = s.nodes.len() as usize;
            WalkState {
                nodes: s.nodes.update(p as int, with_child(s.nodes[p as int], id)).push(NodeM {
                    parent: Some(p),
                    index: s.nodes[p as int].children.len() as usize,
                    children: Seq::empty(),
                    tag: Some(name),
                    attrs: attrs,
                    text: Seq::empty(),
                }),
                open: s.open.push(id),
                marks: s.marks.push(true),
            }
        },
        WalkEdgeM::Text(t) => WalkState { nodes: add_text(s.nodes, s.open, t), open: s.open, marks: s.marks.push(false) },
        WalkEdgeM::Other => WalkState { nodes: s.nodes, open: s.open, marks: s.marks.push(false) },
        WalkEdgeM::Close => if s.marks.len() == 0 {
            s
        } else {
            WalkState {
                nodes: s.nodes,
                open: if s.marks.last() && s.open.len() > 0 { s.open.drop_last() } else { s.open },
                marks: s.marks.drop_last(),
            }
        },
    }
}

/// The state after the edges of `w`, from the root alone.
pub open spec fn walk_state(w: Seq<WalkEdgeM>) -> WalkState
    decreases w.len(),
{
    if w.len() == 0 {
        WalkState { nodes: seq![root_node()], open: Seq::empty(), marks: Seq::empty() }
    } else {
        walk_step(walk_state(w.drop_last()), w.last())
    }
}

/// The navigation structure of a walk: the root, then the elements in the order they
/// start, each under the innermost element it is inside of (or the root), with its
/// text the concatenated text of the text nodes inside of it.
pub open spec fn element_tree(w: Seq<WalkEdgeM>) -> Seq<NodeM> {
    walk_state(w).nodes
}

/// The open elements are nodes other than the root, in increasing order, and no node
/// has as many children as there are nodes.
pub open spec fn walk_ok(s: WalkState) -> bool {
    &&& forall|k: int| 0 <= k < s.open.len() ==> 0 < #[trigger] s.open[k] < s.nodes.len()
    &&& forall|j: int, k: int| 0 <= j < k < s.open.len() ==> #[trigger] s.open[j] < #[trigger] s.open[k]
    &&& forall|i: int| 0 <= i < s.nodes.len() ==> (#[trigger] s.nodes[i]).children.len() < s.nodes.len()
}

/// One edge keeps the tree well formed and the open elements in order.
proof fn lemma_walk_step(s: WalkState, e: WalkEdgeM)
    requires
        tree_wf(s.nodes),
        walk_ok(s),
        s.nodes.len() <= usize::MAX,
    ensures
        tree_wf(walk_step(s, e).nodes),
        walk_ok(walk_step(s, e)),
        walk_step(s, e).nodes.len() <= s.nodes.len() + 1,
{
    let d = s.nodes;
    match e {
        WalkEdgeM::Element(name, attrs) => {
            let p = walk_parent(s) as int;
            let id = d.len() as int;
            let n = walk_step(s, e).nodes;
            assert(0 <= p < id);
            assert(d[p].children.len() < d.len());
            assert forall|i: int| 0 < i < n.len() implies #[trigger] child_linked(n, i) by {
                if i < id {
                    assert(child_linked(d, i));
                    let q = d[i].parent.unwrap() as int;
                    if q == p {
                        assert(n[q].children == d[q].children.push(id as usize));
                    }
                }
            }
            assert forall|i: int, k: int| 0 <= i < n.len() && 0 <= k < n[i].children.len() implies #[trigger] parent_linked(n, i, k) by {
                if i == p && k == d[p].children.len() {
                } else if i < id {
                    assert(parent_linked(d, i, k));
                }
            }
        },
        WalkEdgeM::Text(t) => {
            let n = walk_step(s, e).nodes;
            assert forall|i: int| 0 < i < n.len() implies #[trigger] child_linked(n, i) by {
                assert(child_linked(d, i));
            }
            assert forall|i: int, k: int| 0 <= i < n.len() && 0 <= k < n[i].children.len() implies #[trigger] parent_linked(n, i, k) by {
                assert(parent_linked(d, i, k));
            }
        },
        _ => {},
    }
}

/// Every walk that fits in memory builds a well-formed tree.
proof fn lemma_walk_wf(w: Seq<WalkEdgeM>)
    requires
        w.len() <= usize::MAX,
    ensures
        tree_wf(walk_state(w).nodes),
        walk_ok(walk_state(w)),
        walk_state(w).nodes.len() <= w.len() + 1,
    decreases w.len(),
{
    if w.len() > 0 {
        lemma_walk_wf(w.drop_last());
        lemma_walk_step(walk_state(w.drop_last()), w.last());
    }
}

/// Parsed HTML document (or fragment) with plan node ids.
pub struct Dom {
    /// The HTML text it was parsed from.
    source: String,
    /// Whether it was parsed as a fragment (else as a full document).
    fragment: bool,
    nodes: Vec<DomNode>,
}

impl View for Dom {
    type V = Seq<NodeM>;

    closed spec fn view(&self) -> Seq<NodeM> {
        nodes_view(self.nodes@)
    }
}

/// The parent of `x`, `None` at the root or outside the tree.
pub open spec fn spec_parent(d: Seq<NodeM>, x: int) -> Option<usize> {
    if 0 <= x < d.len() {
        d[x].parent
    } else {
        None
    }
}

/// The element children of `x`, as plan ids.
pub open spec fn spec_children_ids(d: Seq<NodeM>, x: int) -> Seq<id::DomNodeId> {
    if 0 <= x < d.len() {
        d[x].children.map_values(|c: usize| id::DomNodeId(c as u64))
    } else {
        Seq::empty()
    }
}

/// The first element child of `x`.
pub open spec fn spec_first_child(d: Seq<NodeM>, x: int) -> Option<usize> {
    if 0 <= x < d.len() && d[x].children.len() > 0 {
        Some(d[x].children[0])
    } else {
        None
    }
}

/// The element sibling `x`'s position plus `offset` (1 for next, -1 for previous).
pub open spec fn spec_sibling(d: Seq<NodeM>, x: int, offset: int) -> Option<usize> {
    if 0 < x < d.len() {
        match d[x].parent {
            Some(p) => {
                let k = d[x].index + offset;
                if 0 <= k < d[p as int].children.len() {
                    Some(d[p as int].children[k])
                } else {
                    None
                }
            },
            None => None,
        }
    } else {
        None
    }
}

impl Dom {
    /// The HTML text the document was parsed from.
    pub closed spec fn spec_source(&self) -> Seq<char> {
        self.source@
    }

    /// Whether the document was parsed as a fragment.
    pub closed spec fn spec_fragment(&self) -> bool {
        self.fragment
    }

    /// Every document is the well-formed tree of the walk of its source.
    #[verifier::type_invariant]
    pub open spec fn wf(&self) -> bool {
        &&& tree_wf(self@)
        &&& self@ == element_tree(source_walk(self.spec_source(), self.spec_fragment()))
    }

    /// Parses a full HTML document.
    pub fn parse_document(source: &str) -> (r: Dom)
        ensures
            r.wf(),
            r@ == element_tree(html_document_walk(source@)),
            r.spec_source() == source@,
            !r.spec_fragment(),
    {
        let walk = parse_document_walk(source);
        Dom::from_walk(String::from_str(source), false, walk)
    }

    /// Parses an HTML fragment (wrapped under a synthetic `<html>`).
    pub fn parse_fragment(source: &str) -> (r: Dom)
        ensures
            r.wf(),
            r@ == element_tree(html_fragment_walk(source@)),
            r.spec_source() == source@,
            r.spec_fragment(),
    {
        let walk = parse_fragment_walk(source);
        Dom::from_walk(String::from_str(source), true, walk)
    }

    /// Appends `t` to the text of each node listed in `open`.
    fn append_text(nodes: &mut Vec<DomNode>, open: &Vec<usize>, t: &str)
        requires
            forall|k: int| 0 <= k < open@.len() ==> #[trigger] open@[k] < old(nodes)@.len(),
            forall|j: int, k: int| 0 <= j < k < open@.len() ==> #[trigger] open@[j] < #[trigger] open@[k],
        ensures
            nodes_view(final(nodes)@) == add_text(nodes_view(old(nodes)@), open@, t@),
    {
        let ghost before = nodes_view(nodes@);
        let count = nodes.len();
        let mut k: usize = 0;
        proof {
            assert(open@.take(0) =~= Seq::<usize>::empty());
            assert(nodes_view(nodes@) =~= add_text(before, open@.take(0), t@));
        }
        while k < open.len()
            invariant
                k <= open@.len(),
                nodes@.len() == before.len(),
                before.len() == count,
                forall|k: int| 0 <= k < open@.len() ==> #[trigger] open@[k] < before.len(),
                forall|j: int, k: int| 0 <= j < k < open@.len() ==> #[trigger] open@[j] < #[trigger] open@[k],
                nodes_view(nodes@) == add_text(before, open@.take(k as int), t@),
            decreases open@.len() - k,
        {
            let id = open[k];
            let ghost mid = nodes_view(nodes@);
            let ghost old_nodes = nodes@;
            let mut text = String::new();
            std::mem::swap(&mut text, &mut nodes[id].text);
            text.append(t);
            std::mem::swap(&mut text, &mut nodes[id].text);
            proof {
                assert(nodes@[id as int].text@ == mid[id as int].text + t@);
                assert(node_view(nodes@[id as int]) == with_text(mid[id as int], t@));
                assert forall|j: int| 0 <= j < nodes@.len() && j != id implies nodes@[j] == old_nodes[j] by {}
                assert(open@.take(k + 1) =~= open@.take(k as int).push(id));
                assert(!open@.take(k as int).contains(id)) by {
                    if open@.take(k as int).contains(id) {
                        let j = choose|j: int| 0 <= j < k && open@.take(k as int)[j] == id;
                        assert(open@[j] < open@[k as int]);
                    }
                }
                assert forall|j: int| 0 <= j < before.len() implies #[trigger] open@.take(k + 1).contains(j as usize) == (open@.take(k as int).contains(j as usize) || j == id) by {
                    let x = j as usize;
                    if j == id {
                        assert(open@.take(k + 1)[k as int] == id);
                    }
                    let before_k = open@.take(k as int);
                    let after_k = open@.take(k + 1);
                    if before_k.contains(x) {
                        let m = choose|m: int| 0 <= m < before_k.len() && #[trigger] before_k[m] == x;
                        assert(after_k[m] == x);
                    }
                    if after_k.contains(x) {
                        let m = choose|m: int| 0 <= m < after_k.len() && #[trigger] after_k[m] == x;
                        if m < k {
                            assert(before_k[m] == x);
                        }
                    }
                }
                let goal = add_text(before, open@.take(k + 1), t@);
                let prev = add_text(before, open@.take(k as int), t@);
                assert(mid == prev);
                assert forall|j: int| 0 <= j < before.len() implies #[trigger] nodes_view(nodes@)[j] == goal[j] by {
                    assert(open@.take(k + 1).contains(j as usize) == (open@.take(k as int).contains(j as usize) || j == id));
                    if j != id {
                        assert(nodes@[j] == old_nodes[j]);
                        assert(nodes_view(nodes@)[j] == mid[j]);
                    } else {
                        assert(mid[j] == before[j]);
                    }
                }
                assert(nodes_view(nodes@) =~= goal);
            }
            k += 1;
        }
        proof {
            assert(open@.take(k as int) =~= open@);
        }
    }

    /// Builds the navigation structure of `source` from its walk.
    fn from_walk(source: String, fragment: bool, walk: Vec<WalkEdge>) -> (r: Dom)
        requires
            walk_view(walk@) == source_walk(source@, fragment),
        ensures
            r.wf(),
            r@ == element_tree(walk_view(walk@)),
            r.spec_source() == source@,
            r.spec_fragment() == fragment,
    {
        let ghost w = walk_view(walk@);
        let mut walk = walk;
        let mut nodes: Vec<DomNode> = Vec::new();
        nodes.push(DomNode { parent: None, index: 0, children: Vec::new(), tag: None, attrs: Vec::new(), text: String::new() });
        let mut open: Vec<usize> = Vec::new();
        let mut marks: Vec<bool> = Vec::new();
        let mut i: usize = 0;
        proof {
            assert(w.take(0) =~= Seq::<WalkEdgeM>::empty());
            assert(attrs_view(nodes@[0].attrs@) =~= Seq::empty());
            assert(nodes_view(nodes@) =~= seq![root_node()]);
            lemma_walk_wf(w.take(0));
        }
        while i < walk.len()
            invariant
                i <= walk@.len(),
                walk@.len() == w.len(),
                forall|j: int| i <= j < w.len() ==> (#[trigger] walk@[j])@ == w[j],
                nodes_view(nodes@) == walk_state(w.take(i as int)).nodes,
                open@ == walk_state(w.take(i as int)).open,
                marks@ == walk_state(w.take(i as int)).marks,
                tree_wf(walk_state(w.take(i as int)).nodes),
                walk_ok(walk_state(w.take(i as int))),
            decreases walk@.len() - i,
        {
            let ghost st = walk_state(w.take(i as int));
            let mut edge = WalkEdge::Close;
            std::mem::swap(&mut edge, &mut walk[i]);
            proof {
                lemma_walk_wf(w.take(i as int));
                assert(w.take(i + 1).drop_last() =~= w.take(i as int));
                assert(w.take(i + 1).last() == edge@);
                assert(walk_state(w.take(i + 1)) == walk_step(st, edge@));
                lemma_walk_step(st, edge@);
                lemma_walk_wf(w.take(i + 1));
            }
            match edge {
                WalkEdge::Element(name, attrs) => {
                    let p: usize = if open.len() > 0 { open[open.len() - 1] } else { 0 };
                    let id = nodes.len();
                    let k = nodes[p].children.len();
                    let mut kids: Vec<usize> = Vec::new();
                    std::mem::swap(&mut kids, &mut nodes[p].children);
                    kids.push(id);
                    std::mem::swap(&mut kids, &mut nodes[p].children);
                    nodes.push(DomNode { parent: Some(p), index: k, children: Vec::new(), tag: Some(name), attrs, text: String::new() });
                    open.push(id);
                    marks.push(true);
                    proof {
                        assert(nodes_view(nodes@) =~= walk_step(st, edge@).nodes);
                    }
                },
                WalkEdge::Text(t) => {
                    Dom::append_text(&mut nodes, &open, t.as_str());
                    marks.push(false);
                },
                WalkEdge::Other => {
                    marks.push(false);
                },
                WalkEdge::Close => {
                    if marks.len() > 0 {
                        let m = marks.pop().unwrap();
                        if m {
                            open.pop();
                        }
                    }
                },
            }
            i += 1;
        }
        proof {
            assert(w.take(i as int) =~= w);
        }
        let r = Dom { source, fragment, nodes };
        r
    }

    /// Number of nodes, root included.
    pub fn len(&self) -> (r: usize)
        ensures
            r == self@.len(),
    {
        self.nodes.len()
    }

    /// The synthetic plan root (not an HTML element).
    pub fn root(&self) -> (r: id::DomNodeId)
        ensures
            r.0 == 0,
    {
        id::DomNodeId::new(0)
    }

    /// The parent: the nearest element ancestor, or the root for top-level elements.
    pub fn parent(&self, id: id::DomNodeId) -> (r: Option<id::DomNodeId>)
        ensures
            match spec_parent(self@, id.0 as int) {
                Some(p) => r == Some(id::DomNodeId(p as u64)),
                None => r is None,
            },
    {
        if id.0 >= self.nodes.len() as u64 {
            return None;
        }
        match self.nodes[id.0 as usize].parent {
            Some(p) => Some(id::DomNodeId::new(p as u64)),
            None => None,
        }
    }

    /// The element children, in order.
    pub fn children(&self, id: id::DomNodeId) -> (r: Vec<id::DomNodeId>)
        ensures
            r@ == spec_children_ids(self@, id.0 as int),
    {
        let mut out: Vec<id::DomNodeId> = Vec::new();
        if id.0 >= self.nodes.len() as u64 {
            return out;
        }
        let kids = &self.nodes[id.0 as usize].children;
        let mut k: usize = 0;
        while k < kids.len()
            invariant
                0 <= id.0 < self@.len(),
                *kids == self.nodes@[id.0 as int].children,
                k <= kids@.len(),
                out@ =~= spec_children_ids(self@, id.0 as int).take(k as int),
            decreases kids@.len() - k,
        {
            out.push(id::DomNodeId::new(kids[k] as u64));
            k = k + 1;
        }
        assert(spec_children_ids(self@, id.0 as int).take(k as int) =~= spec_children_ids(self@, id.0 as int));
        out
    }

    /// The first element child.
    pub fn first_child(&self, id: id::DomNodeId) -> (r: Option<id::DomNodeId>)
        ensures
            match spec_first_child(self@, id.0 as int) {
                Some(c) => r == Some(id::DomNodeId(c as u64)),
                None => r is None,
            },
    {
        if id.0 >= self.nodes.len() as u64 {
            return None;
        }
        let node = &self.nodes[id.0 as usize];
        if node.children.len() == 0 {
            None
        } else {
            Some(id::DomNodeId::new(node.children[0] as u64))
        }
    }

    fn sibling(&self, id: id::DomNodeId, next: bool) -> (r: Option<id::DomNodeId>)
        ensures
            match spec_sibling(self@, id.0 as int, if next { 1 } else { -1 }) {
                Some(c) => r == Some(id::DomNodeId(c as u64)),
                None => r is None,
            },
    {
        proof {
            use_type_invariant(self);
        }
        if id.0 == 0 || id.0 >= self.nodes.len() as u64 {
            return None;
        }
        let node = &self.nodes[id.0 as usize];
        proof {
            assert(child_linked(self@, id.0 as int));
        }
        match node.parent {
            Some(p) => {
                if p >= self.nodes.len() {
                    return None;
                }
                let kids = &self.nodes[p].children;
                if next {
                    if node.index < kids.len() && node.index + 1 < kids.len() {
                        Some(id::DomNodeId::new(kids[node.index + 1] as u64))
                    } else {
                        None
                    }
                } else {
                    if node.index > 0 && node.index - 1 < kids.len() {
                        Some(id::DomNodeId::new(kids[node.index - 1] as u64))
                    } else {
                        None
                    }
                }
            },
            None => None,
        }
    }

    /// The next element sibling.
    pub fn next_sibling(&self, id: id::DomNodeId) -> (r: Option<id::DomNodeId>)
        ensures
            match spec_sibling(self@, id.0 as int, 1) {
                Some(c) => r == Some(id::DomNodeId(c as u64)),
                None => r is None,
            },
    {
        self.sibling(id, true)
    }

    /// The previous element sibling.
    pub fn prev_sibling(&self, id: id::DomNodeId) -> (r: Option<id::DomNodeId>)
        ensures
            match spec_sibling(self@, id.0 as int, -1) {
                Some(c) => r == Some(id::DomNodeId(c as u64)),
                None => r is None,
            },
    {
        self.sibling(id, false)
    }

    /// The lowercase tag name; `None` for the root (and outside the tree).
    pub fn tag(&self, id: id::DomNodeId) -> (r: Option<&str>)
        ensures
            0 <= id.0 < self@.len() ==> match self@[id.0 as int].tag {
                Some(t) => r matches Some(s) && s@ == t,
                None => r is None,
            },
            id.0 >= self@.len() ==> r is None,
    {
        if id.0 >= self.nodes.len() as u64 {
            return None;
        }
        match &self.nodes[id.0 as usize].tag {
            Some(t) => Some(t.as_str()),
            None => None,
        }
    }

    /// An attribute value; `None` if missing, for the root, and outside the tree.
    pub fn attr(&self, id: id::DomNodeId, name: &str) -> (r: Option<String>)
        ensures
            match node_attr(self@, id.0 as int, name@) {
                Some(v) => r matches Some(s) && s@ == v,
                None => r is None,
            },
    {
        if id.0 == 0 || id.0 >= self.nodes.len() as u64 {
            return None;
        }
        let attrs = &self.nodes[id.0 as usize].attrs;
        let ghost all = attrs_view(attrs@);
        assert(all == self@[id.0 as int].attrs);
        let mut k: usize = 0;
        assert(all.skip(0) =~= all);
        while k < attrs.len()
            invariant
                k <= attrs@.len(),
                all == attrs_view(attrs@),
                0 < id.0 < self@.len(),
                all == self@[id.0 as int].attrs,
                attr_value(all, name@) == attr_value(all.skip(k as int), name@),
            decreases attrs@.len() - k,
        {
            let a = &attrs[k];
            proof {
                assert(all.skip(k as int)[0] == all[k as int]);
                assert(all.skip(k as int).drop_first() =~= all.skip(k + 1));
            }
            if a.0.as_str().unicode_len() == 0 && same_text(a.1.as_str(), name) {
                let v = a.2.clone();
                proof {
                    assert(all[k as int] == (a.0@, a.1@, a.2@));
                    assert(attr_value(all.skip(k as int), name@) == Some(a.2@));
                    assert(v@ == a.2@);
                    assert(node_attr(self@, id.0 as int, name@) == Some(a.2@));
                }
                return Some(v);
            }
            k += 1;
        }
        assert(all.skip(k as int) =~= Seq::<(Seq<char>, Seq<char>, Seq<char>)>::empty());
        None
    }

    /// The element's descendant text, concatenated; empty for the root.
    pub fn text(&self, id: id::DomNodeId) -> (r: String)
        ensures
            r@ == node_text(self@, id.0 as int),
    {
        if id.0 == 0 || id.0 >= self.nodes.len() as u64 {
            return String::new();
        }
        self.nodes[id.0 as usize].text.clone()
    }

    /// Whether selector group `css` holds on each node, by node id (`false` on the
    /// root); empty when `css` does not parse.
    pub fn selector_answers(&self, css: &str) -> (r: Vec<bool>)
        ensures
            r@ == css_answers(self.spec_source(), self.spec_fragment(), css@),
    {
        let found = if self.fragment {
            fragment_matches(self.source.as_str(), css)
        } else {
            document_matches(self.source.as_str(), css)
        };
        let mut out: Vec<bool> = Vec::new();
        match found {
            Some(edges) => {
                let ghost v = edges@;
                out.push(false);
                let mut k: usize = 0;
                proof {
                    assert(v.take(0) =~= Seq::<Option<bool>>::empty());
                    assert(out@ =~= seq![false] + element_answers(v.take(0)));
                }
                while k < edges.len()
                    invariant
                        k <= v.len(),
                        v == edges@,
                        out@ == seq![false] + element_answers(v.take(k as int)),
                    decreases v.len() - k,
                {
                    proof {
                        assert(v.take(k + 1).drop_last() =~= v.take(k as int));
                    }
                    match edges[k] {
                        Some(b) => {
                            out.push(b);
                            proof {
                                assert(out@ =~= seq![false] + element_answers(v.take(k + 1)));
                            }
                        },
                        None => {},
                    }
                    k += 1;
                }
                proof {
                    assert(v.take(k as int) =~= v);
                }
            },
            None => {},
        }
        out
    }
}

} // verus!
