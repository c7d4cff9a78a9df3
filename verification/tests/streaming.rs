use std::borrow::Cow;
use std::cell::RefCell;
use std::collections::HashMap;
use std::rc::Rc;

use lol_html::html_content::{Comment, Element, EndTag, TextChunk};
use lol_html::{ElementContentHandlers, HandlerResult, HtmlRewriter, Selector, Settings};
use lol_query::element_view::{AttributeView, ElementView};
use lol_query::engine::engine::{Engine, Runtime};
use lol_query::engine::program::Leaf;
use lol_query::matcher::matcher::{ChainBuild, Matcher, MatcherBuild, SingleBuild};
use lol_query::matcher::step::{Predicate, Step};
use lol_query::plan::builder::builder::Builder;
use lol_query::plan::representation::plan::Plan;
use lol_query::plan::representation::registry::Value;
use lol_query::plan::shell::streaming::Streaming;
use lol_query::plan::test_util::unwrap_or_empty_str;

type Entry = (Cow<'static, Selector>, ElementContentHandlers<'static>);
type Log = Rc<RefCell<Vec<String>>>;

fn log() -> Log {
    Rc::new(RefCell::new(vec![]))
}

fn selector(css: &str) -> Cow<'static, Selector> {
    Cow::Owned(css.parse().unwrap_or_else(|e| panic!("selector `{css}`: {e:?}")))
}

/// The library's read-only view of an element.
fn view(el: &Element<'_, '_>) -> ElementView {
    let attributes = el
        .attributes()
        .iter()
        .map(|attr| AttributeView::new(attr.name(), attr.name_preserve_case(), attr.value()))
        .collect();
    ElementView::new(el.tag_name(), el.tag_name_preserve_case(), el.is_self_closing(), el.can_have_content(), el.namespace_uri(), attributes)
}

fn id_of(el: &ElementView) -> String {
    el.get_attribute("id").unwrap_or_default()
}

/// What the driver calls back, per chain.
#[derive(Default)]
struct Hooks {
    on_match: HashMap<usize, Box<dyn FnMut(&ElementView)>>,
    on_enter: HashMap<usize, Box<dyn FnMut(u64, u64, u32, &ElementView)>>,
    on_exit: HashMap<usize, Box<dyn FnMut(u64)>>,
    on_text_chunk: HashMap<usize, Box<dyn FnMut(&str)>>,
    on_text: HashMap<usize, Box<dyn FnMut(&str)>>,
    on_comment: HashMap<usize, Box<dyn FnMut(&str)>>,
}

/// Handlers that feed the document's events to the engine's runtime and run the hooks
/// on what it decides.
fn engine_handlers(engine: Engine, hooks: Hooks) -> (Vec<Entry>, Rc<RefCell<Runtime>>) {
    let bindings = engine.bindings();
    let track_text = bindings.iter().any(|b| b.track_text());
    let comments = bindings.iter().any(|b| b.on_comment);
    let (runtime, leaves) = engine.into_runtime();
    let runtime = Rc::new(RefCell::new(runtime));
    let hooks = Rc::new(RefCell::new(hooks));
    let mut out: Vec<Entry> = Vec::new();
    // Leaf selectors first: handlers run in registration order, so the combining handler
    // below sees every hit of the element.
    for (index, leaf) in leaves.into_iter().enumerate() {
        let Leaf { selector: css, predicate } = leaf;
        let rt = runtime.clone();
        out.push((
            selector(&css),
            ElementContentHandlers::default().element(move |el: &mut Element<'_, '_>| -> HandlerResult {
                let answer = predicate.as_ref().map(|predicate| predicate.test(&view(el)));
                rt.borrow_mut().leaf_matched(index, answer);
                Ok(())
            }),
        ));
    }
    let rt = runtime.clone();
    let hk = hooks.clone();
    out.push((
        selector("*"),
        ElementContentHandlers::default().element(move |el: &mut Element<'_, '_>| -> HandlerResult {
            let has_end_tag = el.end_tag_handlers().is_some();
            assert!(rt.borrow().has_room(), "document nesting or size beyond the engine's counters");
            let enter = rt.borrow_mut().enter(has_end_tag);
            if let Some(token) = enter.exit {
                let rt_end = rt.clone();
                let hk_end = hk.clone();
                el.end_tag_handlers().unwrap().push(Box::new(move |_: &mut EndTag<'_>| -> HandlerResult {
                    let ended = rt_end.borrow_mut().exit(token);
                    let mut hooks = hk_end.borrow_mut();
                    for end in ended {
                        if let Some(text) = &end.text {
                            if let Some(callback) = hooks.on_text.get_mut(&end.chain) {
                                callback(text);
                            }
                        }
                        if let Some(instance) = end.instance {
                            if let Some(callback) = hooks.on_exit.get_mut(&end.chain) {
                                callback(instance);
                            }
                        }
                    }
                    Ok(())
                }));
            }
            let element = view(el);
            let mut hooks = hk.borrow_mut();
            for activation in enter.activations {
                if let Some(callback) = hooks.on_match.get_mut(&activation.chain) {
                    callback(&element);
                }
                if let Some(callback) = hooks.on_enter.get_mut(&activation.chain) {
                    callback(activation.instance, activation.node_id, activation.depth, &element);
                }
                if activation.exit_now {
                    if let Some(callback) = hooks.on_exit.get_mut(&activation.chain) {
                        callback(activation.instance);
                    }
                }
            }
            Ok(())
        }),
    ));
    if track_text {
        let rt = runtime.clone();
        let hk = hooks.clone();
        out.push((
            selector("*"),
            ElementContentHandlers::default().text(move |chunk: &mut TextChunk<'_>| -> HandlerResult {
                let listening = rt.borrow_mut().text_chunk(chunk.as_str());
                let mut hooks = hk.borrow_mut();
                for chain in listening {
                    if let Some(callback) = hooks.on_text_chunk.get_mut(&chain) {
                        callback(chunk.as_str());
                    }
                }
                Ok(())
            }),
        ));
    }
    if comments {
        let rt = runtime.clone();
        let hk = hooks.clone();
        out.push((
            selector("*"),
            ElementContentHandlers::default().comments(move |comment: &mut Comment<'_>| -> HandlerResult {
                let listening = rt.borrow().comment();
                let text = comment.text();
                let mut hooks = hk.borrow_mut();
                for chain in listening {
                    if let Some(callback) = hooks.on_comment.get_mut(&chain) {
                        callback(&text);
                    }
                }
                Ok(())
            }),
        ));
    }
    (out, runtime)
}

fn rewrite(entries: Vec<Entry>, html: &str) -> String {
    let mut settings = Settings::new();
    for entry in entries {
        settings = settings.append_element_content_handler(entry);
    }
    let mut out = vec![];
    {
        let mut rw = HtmlRewriter::new(settings, |c: &[u8]| out.extend_from_slice(c));
        rw.write(html.as_bytes()).unwrap();
        rw.end().unwrap();
    }
    String::from_utf8(out).unwrap()
}

fn exec(entries: Vec<Entry>, html: &str) {
    rewrite(entries, html);
}

// ---------------------------------------------------------------- engine

/// Feeds one element start to the runtime: the leaves that hit, then the start itself.
fn start(runtime: &mut Runtime, hits: &[usize], has_end_tag: bool) -> (Vec<usize>, Option<lol_query::engine::engine::ExitToken>) {
    for &leaf in hits {
        runtime.set_hit(leaf);
    }
    let enter = runtime.enter(has_end_tag);
    (enter.activations.iter().map(|a| a.chain).collect(), enter.exit)
}

#[test]
fn runtime_aggregates_text_since_start() {
    // `div` with an aggregated-text callback: <div>a<div>b</div>c</div>
    let mut engine = Engine::new();
    let chain = engine.add_chain(vec![Step::Filter("div".into(), false)], Vec::new());
    engine.on_text(chain);
    let (mut runtime, leaves) = engine.into_runtime();
    let div = leaves.iter().position(|leaf| leaf.selector == "div").unwrap();
    let (_, outer) = start(&mut runtime, &[div], true);
    runtime.text_chunk("a");
    let (_, inner) = start(&mut runtime, &[div], true);
    runtime.text_chunk("b");
    let ended = runtime.exit(inner.unwrap());
    assert_eq!(ended.len(), 1);
    assert_eq!(ended[0].text.as_deref(), Some("b"));
    runtime.text_chunk("c");
    let ended = runtime.exit(outer.unwrap());
    assert_eq!(ended[0].text.as_deref(), Some("abc"));
    // No aggregated-text match is open: chunks are no longer kept.
    assert!(runtime.text_chunk("d").is_empty());
}

#[test]
fn runtime_exit_restores_ancestry() {
    // `div > span`: the span must be a direct child of a div.
    let mut engine = Engine::new();
    let chain = engine.add_chain(vec![Step::Filter("div".into(), false), Step::Direct, Step::Filter("span".into(), false)], Vec::new());
    engine.on_match(chain);
    let (mut runtime, leaves) = engine.into_runtime();
    let div = leaves.iter().position(|leaf| leaf.selector == "div").unwrap();
    let span = leaves.iter().position(|leaf| leaf.selector == "span").unwrap();
    // <div><span></span></div><span></span>
    let (matched, div_token) = start(&mut runtime, &[div], true);
    assert!(matched.is_empty());
    let (matched, span_token) = start(&mut runtime, &[span], true);
    assert_eq!(matched, vec![chain]);
    runtime.exit(span_token.unwrap());
    runtime.exit(div_token.unwrap());
    // After both exits the ancestry is empty again: a top-level span does not match.
    let (matched, _) = start(&mut runtime, &[span], true);
    assert!(matched.is_empty());
}


fn css_steps(selector: &str) -> Vec<Step> {
    vec![Step::Filter(selector.into(), false)]
}

fn check_match(steps: Vec<Step>, html: &str, expected: &str) {
    let ids = log();
    let ids2 = ids.clone();
    let mut engine = Engine::new();
    let chain = engine.add_chain(steps, Vec::new());
    engine.on_match(chain);
    let mut hooks = Hooks::default();
    hooks.on_match.insert(chain, Box::new(move |el| ids2.borrow_mut().push(id_of(el))));
    exec(engine_handlers(engine, hooks).0, html);
    assert_eq!(ids.borrow().join(" "), expected);
}

fn check_enter_exit(steps: Vec<Step>, html: &str, expected: &str) {
    let events = log();
    let enter_log = events.clone();
    let exit_log = events.clone();
    let mut engine = Engine::new();
    let chain = engine.add_chain(steps, Vec::new());
    engine.on_enter(chain);
    engine.on_exit(chain);
    let mut hooks = Hooks::default();
    hooks.on_enter.insert(
        chain,
        Box::new(move |id, _node, _depth, el| enter_log.borrow_mut().push(format!("+{id}:{}", id_of(el)))),
    );
    hooks.on_exit.insert(chain, Box::new(move |id| exit_log.borrow_mut().push(format!("-{id}"))));
    exec(engine_handlers(engine, hooks).0, html);
    assert_eq!(events.borrow().join(" "), expected);
}

fn check_two_chains(left: Vec<Step>, right: Vec<Step>, html: &str, expected_left: &str, expected_right: &str) {
    let left_ids = log();
    let right_ids = log();
    let left2 = left_ids.clone();
    let right2 = right_ids.clone();
    let mut engine = Engine::new();
    let left_chain = engine.add_chain(left, Vec::new());
    let right_chain = engine.add_chain(right, Vec::new());
    engine.on_match(left_chain);
    engine.on_match(right_chain);
    let mut hooks = Hooks::default();
    hooks.on_match.insert(left_chain, Box::new(move |el| left2.borrow_mut().push(id_of(el))));
    hooks.on_match.insert(right_chain, Box::new(move |el| right2.borrow_mut().push(id_of(el))));
    exec(engine_handlers(engine, hooks).0, html);
    assert_eq!(left_ids.borrow().join(" "), expected_left);
    assert_eq!(right_ids.borrow().join(" "), expected_right);
}

#[test]
fn engine() {
    // on_match — single chain still matches through the extracted engine
    check_match(css_steps("div"), r#"<div id="a"></div><span id="b"></span>"#, "a");

    // on_enter / on_exit — nested matches get distinct ids; exits are LIFO
    check_enter_exit(css_steps("div"), r#"<div id="a"><div id="b"></div></div>"#, "+0:a +1:b -1 -0");

    // on_enter / on_exit — void elements enter and exit immediately
    check_enter_exit(css_steps("img"), r#"<img id="a"><span id="b"></span>"#, "+0:a -0");

    // two chains on one Engine — one combine pass, independent callbacks
    check_two_chains(css_steps("div"), css_steps("span"), r#"<div id="a"></div><span id="b"></span><div id="c"><span id="d"></span></div>"#, "a c", "b d");

    // two chains — an element matched by both is reported on both
    check_two_chains(css_steps("div"), css_steps(".item"), r#"<div class="item" id="a"></div><div id="b"></div>"#, "a b", "a");
}

#[test]
fn engine_enter_reports_depth_and_node() {
    let events = log();
    let enter_log = events.clone();
    let mut engine = Engine::new();
    let chain = engine.add_chain(css_steps("b"), Vec::new());
    engine.on_enter(chain);
    let mut hooks = Hooks::default();
    hooks.on_enter.insert(chain, Box::new(move |id, node, depth, _| enter_log.borrow_mut().push(format!("{id}@{node}/{depth}"))));
    exec(engine_handlers(engine, hooks).0, r#"<b></b><i><b></b></i>"#);
    assert_eq!(events.borrow().join(" "), "0@0/1 1@2/2");
}

// ---------------------------------------------------------------- matcher

#[derive(Clone, Default)]
struct Logs {
    each: Option<Log>,
    text_chunk: Option<Log>,
    text: Option<Log>,
    comment: Option<Log>,
}

#[derive(Default)]
struct Expected<'a> {
    each: Option<&'a str>,
    text_chunk: Option<&'a str>,
    text: Option<&'a str>,
    comment: Option<&'a str>,
}

fn push_id(log: Log) -> impl FnMut(&ElementView) + 'static {
    move |el: &ElementView| log.borrow_mut().push(id_of(el))
}

fn push_text(log: Log) -> impl FnMut(&str) + 'static {
    move |text: &str| {
        if !text.is_empty() {
            log.borrow_mut().push(text.to_string());
        }
    }
}

/// Handlers of a lone selector: its element, text and comment handlers; with a predicate,
/// text and comments count only inside an element that passed it.
fn single_handlers(single: SingleBuild, logs: &Logs) -> Vec<Entry> {
    let SingleBuild { selector: css, predicate, .. } = single;
    let mut out: Vec<Entry> = Vec::new();
    let Some(predicate) = predicate else {
        if let Some(log) = logs.each.clone() {
            let mut callback = push_id(log);
            out.push((
                selector(&css),
                ElementContentHandlers::default().element(move |el: &mut Element<'_, '_>| -> HandlerResult {
                    callback(&view(el));
                    Ok(())
                }),
            ));
        }
        if let Some(log) = logs.text_chunk.clone() {
            let mut callback = push_text(log);
            out.push((
                selector(&css),
                ElementContentHandlers::default().text(move |chunk: &mut TextChunk<'_>| -> HandlerResult {
                    callback(chunk.as_str());
                    Ok(())
                }),
            ));
        }
        if let Some(log) = logs.comment.clone() {
            let mut callback = push_text(log);
            out.push((
                selector(&css),
                ElementContentHandlers::default().comments(move |comment: &mut Comment<'_>| -> HandlerResult {
                    callback(&comment.text());
                    Ok(())
                }),
            ));
        }
        return out;
    };
    if logs.text_chunk.is_none() && logs.comment.is_none() {
        let mut callback = push_id(logs.each.clone().expect("a callback"));
        out.push((
            selector(&css),
            ElementContentHandlers::default().element(move |el: &mut Element<'_, '_>| -> HandlerResult {
                let element = view(el);
                if predicate.test(&element) {
                    callback(&element);
                }
                Ok(())
            }),
        ));
        return out;
    }
    let active = Rc::new(RefCell::new(false));
    let active_for_el = active.clone();
    let mut callback = logs.each.clone().map(push_id);
    out.push((
        selector(&css),
        ElementContentHandlers::default().element(move |el: &mut Element<'_, '_>| -> HandlerResult {
            let element = view(el);
            let ok = predicate.test(&element);
            *active_for_el.borrow_mut() = ok;
            if !ok {
                return Ok(());
            }
            if let Some(callback) = callback.as_mut() {
                callback(&element);
            }
            if let Some(end_tag_handlers) = el.end_tag_handlers() {
                let active = active_for_el.clone();
                end_tag_handlers.push(Box::new(move |_: &mut EndTag<'_>| -> HandlerResult {
                    *active.borrow_mut() = false;
                    Ok(())
                }));
            }
            Ok(())
        }),
    ));
    if let Some(log) = logs.text_chunk.clone() {
        let active = active.clone();
        let mut callback = push_text(log);
        out.push((
            selector(&css),
            ElementContentHandlers::default().text(move |chunk: &mut TextChunk<'_>| -> HandlerResult {
                if *active.borrow() {
                    callback(chunk.as_str());
                }
                Ok(())
            }),
        ));
    }
    if let Some(log) = logs.comment.clone() {
        let active = active.clone();
        let mut callback = push_text(log);
        out.push((
            selector(&css),
            ElementContentHandlers::default().comments(move |comment: &mut Comment<'_>| -> HandlerResult {
                if *active.borrow() {
                    callback(&comment.text());
                }
                Ok(())
            }),
        ));
    }
    out
}

fn chain_handlers(chain: ChainBuild, logs: &Logs) -> (Vec<Entry>, Rc<RefCell<Runtime>>) {
    let ChainBuild { engine, root, .. } = chain;
    let mut hooks = Hooks::default();
    if let Some(log) = logs.each.clone() {
        hooks.on_match.insert(root, Box::new(push_id(log)));
    }
    if let Some(log) = logs.text_chunk.clone() {
        hooks.on_text_chunk.insert(root, Box::new(push_text(log)));
    }
    if let Some(log) = logs.text.clone() {
        hooks.on_text.insert(root, Box::new(push_text(log)));
    }
    if let Some(log) = logs.comment.clone() {
        hooks.on_comment.insert(root, Box::new(push_text(log)));
    }
    engine_handlers(engine, hooks)
}

fn attach(matcher: Matcher, logs: &Logs) -> Vec<Entry> {
    let mut matcher = matcher;
    if logs.each.is_some() {
        matcher = matcher.on_each();
    }
    if logs.text_chunk.is_some() {
        matcher = matcher.on_text_chunk();
    }
    if logs.text.is_some() {
        matcher = matcher.on_text();
    }
    if logs.comment.is_some() {
        matcher = matcher.on_comment();
    }
    match matcher.build() {
        MatcherBuild::Single(single) => single_handlers(single, logs),
        MatcherBuild::Chain(chain) => chain_handlers(chain, logs).0,
    }
}

fn check_logs(matchers: Vec<Matcher>, html: &str, expected: Expected<'_>) {
    let logs = Logs {
        each: expected.each.map(|_| log()),
        text_chunk: expected.text_chunk.map(|_| log()),
        text: expected.text.map(|_| log()),
        comment: expected.comment.map(|_| log()),
    };
    exec(matchers.into_iter().flat_map(|matcher| attach(matcher, &logs)).collect(), html);
    for (log, expected) in
        [(&logs.each, expected.each), (&logs.comment, expected.comment), (&logs.text, expected.text), (&logs.text_chunk, expected.text_chunk)]
    {
        if let (Some(log), Some(expected)) = (log, expected) {
            assert_eq!(log.borrow().join(" "), expected);
        }
    }
}

fn check(matcher: Matcher, html: &str, expected: &str) {
    check_logs(vec![matcher], html, Expected { each: Some(expected), ..Default::default() });
}

fn check_text(matcher: Matcher, html: &str, expected: &str) {
    check_logs(vec![matcher], html, Expected { text_chunk: Some(expected), ..Default::default() });
}

fn check_aggregated(matcher: Matcher, html: &str, expected: &str) {
    check_logs(vec![matcher], html, Expected { text: Some(expected), ..Default::default() });
}

fn check_comment(matcher: Matcher, html: &str, expected: &str) {
    check_logs(vec![matcher], html, Expected { comment: Some(expected), ..Default::default() });
}

fn check_all(matcher: Matcher, html: &str, expected_each: &str, expected_comment: &str, expected_text: &str, expected_text_chunk: &str) {
    check_logs(vec![matcher], html, Expected {
        each: Some(expected_each),
        comment: Some(expected_comment),
        text: Some(expected_text),
        text_chunk: Some(expected_text_chunk),
    });
}

fn nested_html(depth: usize) -> String {
    let mut html = String::with_capacity(depth * 32);
    for level in 0..depth {
        let class = if level == 0 {
            "root"
        } else if level == depth / 3 {
            "red"
        } else if level == depth * 2 / 3 {
            "blue"
        } else if level + 1 == depth {
            "target"
        } else {
            "node"
        };
        html.push_str("<div class=\"");
        html.push_str(class);
        html.push_str("\">");
    }
    html.push_str(&"</div>".repeat(depth));
    html
}

fn matcher_operation_count(depth: usize) -> usize {
    let matches = Rc::new(RefCell::new(0));
    let matches_for_callback = matches.clone();
    let built = Matcher::new()
        .css(".root")
        .gap_with_every(vec![Matcher::new().css(".red"), Matcher::new().css(".blue")])
        .css(".target")
        .on_each()
        .build();
    let MatcherBuild::Chain(ChainBuild { engine, root, .. }) = built else {
        panic!("a chain of selectors builds an engine");
    };
    let mut hooks = Hooks::default();
    hooks.on_match.insert(root, Box::new(move |_| *matches_for_callback.borrow_mut() += 1));
    let (entries, runtime) = engine_handlers(engine, hooks);
    exec(entries, &nested_html(depth));
    assert_eq!(*matches.borrow(), 1);
    let count = runtime.borrow().operation_count();
    count
}

fn has_data(key: &'static str, value: &'static str) -> impl Fn(&ElementView) -> bool + 'static {
    move |el: &ElementView| el.get_attribute(key).as_deref() == Some(value)
}

#[test]
fn matcher() {
    // css() — simple tag selector
    check(Matcher::new().css("div"), r#"<div id="a"></div><span id="b"></span>"#, "a");

    // css() — multiple matches
    check(Matcher::new().css("p"), r#"<p id="a"></p><p id="b"></p>"#, "a b");

    // css() — class selector
    check(Matcher::new().css(".item"), r#"<div class="item" id="a"></div><div id="b"></div>"#, "a");

    // css() — descendant selector
    check(Matcher::new().css(".root .item"), r#"<div class="root"><span class="item" id="a"></span></div><span class="item" id="b"></span>"#, "a");

    // filter() — attribute presence
    check(
        Matcher::new().filter(".item", |el: &ElementView| el.get_attribute("data-x").is_some()),
        r#"<div class="item" id="a" data-x="1"></div><div class="item" id="b"></div>"#,
        "a",
    );

    // filter() — attribute value match
    check(
        Matcher::new().filter("span", |el: &ElementView| el.get_attribute("data-x").as_deref() == Some("main")),
        r#"<span id="a" data-x="main"></span><span id="b" data-x="other"></span><span id="c"></span>"#,
        "a",
    );

    // filter() — none pass predicate
    check(Matcher::new().filter("div", |el: &ElementView| el.has_attribute("data-missing")), r#"<div id="a"></div><div id="b"></div>"#, "");

    // chain — equivalent of the "a img" selector
    check(Matcher::new().css("a").css("img"), r#"<a id="x"><img id="a"></a><img id="b">"#, "a");

    // chain — ancestors do not have to be parents
    check(Matcher::new().css(".root").css("i"), r#"<div class="root"><span><i id="a"></i></span></div><i id="b"></i>"#, "a");

    // chain — three levels
    check(Matcher::new().css("ul").css("li").css("b"), r#"<ul><li><b id="a"></b></li></ul><li><b id="b"></b></li>"#, "a");

    // chain — repeated universal selectors still consume distinct ancestry levels
    check(
        Matcher::new().css("*").css("*").css("*"),
        r#"<main id="x"><section id="y"><i id="a"></i><b id="b"><u id="c"></u></b></section></main><aside id="z"></aside>"#,
        "a b c",
    );

    // chain — an ancestor stops matching once it is closed
    check(Matcher::new().css("div").css("span"), r#"<div><span id="a"></span></div><span id="b"></span>"#, "a");

    // chain — an element is not its own ancestor
    check(Matcher::new().css("div").css("div"), r#"<div id="x"><div id="a"></div></div>"#, "a");

    // direct() — equivalent of the ".a > .b" selector
    check(
        Matcher::new().css(".a").direct().css(".b"),
        r#"<div class="a"><span class="b" id="a"></span><div><span class="b" id="x"></span></div></div><span class="b" id="y"></span>"#,
        "a",
    );

    // direct() — unlike a descendant chain, intermediate elements break the match
    check(
        Matcher::new().css(".root").direct().css(".item"),
        r#"<div class="root"><span class="item" id="a"></span></div><div class="root"><span><span class="item" id="x"></span></span></div>"#,
        "a",
    );

    // direct() — three direct-child hops
    check(
        Matcher::new().css("ul").direct().css("li").direct().css("b"),
        r#"<ul><li><b id="a"></b></li></ul><ul><li><span><b id="x"></b></span></li></ul><li><b id="y"></b></li>"#,
        "a",
    );

    // direct() — works with any() as the child selector
    check(
        Matcher::new().css(".root").direct().any(vec![Matcher::new().css("a"), Matcher::new().css("img")]),
        r#"<div class="root"><a id="a"></a><section><img id="x"></section></div><a id="y"></a>"#,
        "a",
    );

    // chain — filter() as an ancestor
    check(
        Matcher::new().filter("div", |el: &ElementView| el.get_attribute("data").as_deref() == Some("main")).css("span"),
        r#"<div data="main"><span id="a"></span></div><div><span id="b"></span></div>"#,
        "a",
    );

    // chain — a void element never becomes an ancestor
    check(Matcher::new().css("img").css("span"), r#"<img id="x"><span id="y"></span>"#, "");

    // chain — void match must not leave text_open stuck
    check_text(Matcher::new().css("div").css("img"), r#"<div><img></div><p>leak</p>"#, "");

    // chain — an implicitly closed ancestor stays open until its parent closes (known limitation)
    check(Matcher::new().css("p").css("p"), r#"<div><p id="x">one<p id="a">two</div>"#, "a");

    // not() — equivalent of the "*:not(a)" selector
    check(Matcher::new().not(Matcher::new().css("a")), r#"<a id="x"></a><span id="a"></span>"#, "a");

    // not() — as a link of a chain
    check(Matcher::new().css("div").not(Matcher::new().css("span")), r#"<div id="x"><span id="y"></span><i id="a"></i></div>"#, "a");

    // not() — negation of a whole chain
    check(Matcher::new().not(Matcher::new().css("div").css("span")), r#"<div id="a"><span id="x"></span></div><span id="b"></span>"#, "a b");

    // every() — all matchers have to match
    check(
        Matcher::new().every(vec![Matcher::new().css("div"), Matcher::new().css(".item")]),
        r#"<div class="item" id="a"></div><div id="x"></div><span class="item" id="y"></span>"#,
        "a",
    );

    // every() — combined with not()
    check(
        Matcher::new().every(vec![Matcher::new().css(".item"), Matcher::new().not(Matcher::new().css("span"))]),
        r#"<div class="item" id="a"></div><span class="item" id="x"></span>"#,
        "a",
    );

    // any() — at least one matcher has to match
    check(Matcher::new().any(vec![Matcher::new().css("div"), Matcher::new().css("span")]), r#"<div id="a"></div><span id="b"></span><p id="x"></p>"#, "a b");

    // any() — an element matched by several selectors is reported once
    check(Matcher::new().any(vec![Matcher::new().css("div"), Matcher::new().css(".item")]), r#"<div class="item" id="a"></div>"#, "a");

    // any() — as an ancestor of a chain
    check(
        Matcher::new().any(vec![Matcher::new().css("main"), Matcher::new().css("aside")]).css("img"),
        r#"<main><img id="a"></main><aside><img id="b"></aside><div><img id="x"></div>"#,
        "a b",
    );

    // gap_without() — empty and clear gaps match, a blocked ancestor does not
    check(
        Matcher::new().css(".root").gap_without(Matcher::new().css(".blocked")).css(".target"),
        r#"<div class="root"><i class="target" id="a"></i><section><i class="target" id="b"></i></section><section class="blocked"><i class="target" id="x"></i></section><section class="blocked"></section><i class="target" id="c"></i></div>"#,
        "a b c",
    );

    // gap_without() — the two boundary elements are not part of the gap
    check(
        Matcher::new().css(".root").gap_without(Matcher::new().css(".blocked")).css(".target"),
        r#"<div class="root blocked"><i class="target blocked" id="a"></i></div>"#,
        "a",
    );

    // gap_without() — a leading gap constrains the whole ancestry before the final selector
    check(
        Matcher::new().gap_without(Matcher::new().css(".blocked")).css(".target"),
        r#"<section><i class="target" id="a"></i></section><section class="blocked"><i class="target" id="x"></i></section><i class="target blocked" id="b"></i>"#,
        "a b",
    );

    // Consecutive gaps are concatenated, so their order can affect the match.
    check(
        Matcher::new().gap_without(Matcher::new().css(".x")).gap_without(Matcher::new().css(".y")).css(".target"),
        r#"<div class="y"><div class="x"><i class="target" id="a"></i></div></div><div class="x"><div class="y"><i class="target" id="x"></i></div></div><div><i class="target" id="b"></i></div>"#,
        "a b",
    );

    // gap_without() — the nested matcher may itself be a combinator
    check(
        Matcher::new()
            .css(".root")
            .gap_without(Matcher::new().every(vec![
                Matcher::new().css(".marker"),
                Matcher::new().not(Matcher::new().css(".allowed")),
            ]))
            .css(".target"),
        r#"<div class="root"><section class="marker allowed"><i class="target" id="a"></i></section><section class="marker"><i class="target" id="x"></i></section></div>"#,
        "a",
    );

    // gap_with_any() — at least one matching intermediate ancestor is required
    check(
        Matcher::new().css(".root").gap_with_any(vec![Matcher::new().css(".red"), Matcher::new().css(".blue")]).css(".target"),
        r#"<div class="root"><section class="red"><i class="target" id="a"></i></section><section class="blue"><i class="target" id="b"></i></section><section><i class="target" id="x"></i></section><i class="target red" id="y"></i></div>"#,
        "a b",
    );

    // gap_with_every() — requirements may occur in either order or on one element
    check(
        Matcher::new().css(".root").gap_with_every(vec![Matcher::new().css(".red"), Matcher::new().css(".blue")]).css(".target"),
        r#"<div class="root"><section class="red"><b class="blue"><i class="target" id="a"></i></b></section><section class="blue"><b class="red"><i class="target" id="b"></i></b></section><section class="red blue"><i class="target" id="c"></i></section><section class="red"><i class="target" id="x"></i></section><section class="blue"><i class="target" id="y"></i></section></div>"#,
        "a b c",
    );

    // Different gap kinds may be concatenated; each consumes its own part of the ancestry.
    check(
        Matcher::new()
            .css(".root")
            .gap_with_any(vec![Matcher::new().css(".a")])
            .gap_with_every(vec![Matcher::new().css(".b"), Matcher::new().css(".c")])
            .css(".target"),
        r#"<div class="root"><section class="a"><div class="b"><div class="c"><i class="target" id="a"></i></div></div></section><section class="a"><div class="c"><div class="b"><i class="target" id="b"></i></div></div></section><section class="a"><div class="b c"><i class="target" id="c"></i></div></section><section class="b"><div class="c"><div class="a"><i class="target" id="x"></i></div></div></section><section class="a b c"><i class="target" id="y"></i></section></div>"#,
        "a b c",
    );

    // Multiple constrained gaps compose with nested ancestry matchers.
    check(
        Matcher::new().every(vec![
            Matcher::new().css(".target"),
            Matcher::new()
                .css(".root")
                .gap_with_every(vec![Matcher::new().css(".red"), Matcher::new().css(".blue")])
                .css(".middle")
                .gap_without(Matcher::new().any(vec![Matcher::new().css(".blocked"), Matcher::new().css(".hidden")]))
                .css(".target"),
        ]),
        r#"<div class="root"><div class="red"><div class="blue"><section class="middle"><div><i class="target" id="a"></i></div><div class="blocked"><i class="target" id="x"></i></div></section></div></div><div class="red"><section class="middle"><i class="target" id="y"></i></section></div></div>"#,
        "a",
    );

    // Gap selectors use the same element, text and comment callback path.
    check_all(
        Matcher::new().css(".root").gap_without(Matcher::new().css(".blocked")).css(".target"),
        r#"<div class="root"><section><i class="target" id="a">keep<!--note--></i></section><section class="blocked"><i class="target" id="x">skip<!--miss--></i></section></div>"#,
        "a",
        "note",
        "keep",
        "keep",
    );

    // several matchers keep their own ancestry when added to the same rewriter
    check_logs(
        vec![Matcher::new().css("div").css("i"), Matcher::new().css("section").css("i")],
        r#"<div><i id="a"></i></div><section><i id="b"></i></section><i id="x"></i>"#,
        Expected { each: Some("a b"), ..Default::default() },
    );

    // build paths — css/filter/chain x on_each/on_text_chunk/on_comment/on_text/all
    check(Matcher::new().css("p"), r#"<p id="a"></p><div id="x"></div>"#, "a");
    check_text(Matcher::new().css("p"), r#"<p>hi<b>there</b></p><div>x</div>"#, "hi there");
    check_aggregated(Matcher::new().css("p"), r#"<p>hi<b>there</b></p><div>x</div>"#, "hithere");
    check_comment(Matcher::new().css("p"), r#"<p><!--note--></p><div><!--skip--></div>"#, "note");
    check_all(
        Matcher::new().css("p"),
        r#"<p id="a">one<!--c1--></p><div id="x">skip<!--miss--></div><p id="b">two<!--c2--></p>"#,
        "a b",
        "c1 c2",
        "one two",
        "one two",
    );

    check(
        Matcher::new().filter("span", |el: &ElementView| el.get_attribute("data-x").as_deref() == Some("main")),
        r#"<span data-x="main" id="a"></span><span id="b"></span>"#,
        "a",
    );
    check_text(
        Matcher::new().filter("span", |el: &ElementView| el.get_attribute("data-x").as_deref() == Some("main")),
        r#"<span data-x="main"><b>answer:</b>yes</span><span data-x="other">no</span>"#,
        "answer: yes",
    );
    check_aggregated(
        Matcher::new().filter("span", |el: &ElementView| el.get_attribute("data-x").as_deref() == Some("main")),
        r#"<span data-x="main"><b>answer:</b>yes</span><span data-x="other">no</span>"#,
        "answer:yes",
    );
    check_comment(
        Matcher::new().filter("span", |el: &ElementView| el.get_attribute("data-x").as_deref() == Some("main")),
        r#"<span data-x="main"><!--yes--></span><span data-x="other"><!--no--></span>"#,
        "yes",
    );
    check_all(
        Matcher::new().filter("span", |el: &ElementView| el.get_attribute("data-x").as_deref() == Some("main")),
        r#"<span data-x="main" id="a"><!--c1-->yes</span><span id="b">no<!--c2--></span>"#,
        "a",
        "c1",
        "yes",
        "yes",
    );

    check(Matcher::new().css(".root").css("span"), r#"<div class="root"><span id="a"></span></div><span id="b"></span>"#, "a");
    check_text(
        Matcher::new().css(".root").css("span"),
        r#"<div class="root">outer<span>inner</span><span>inner<b>2</b></span></div><span>other</span>"#,
        "inner inner 2",
    );
    check_aggregated(
        Matcher::new().css(".root").css("span"),
        r#"<div class="root">outer<span>inner</span><span>inner<b>2</b></span></div><span>other</span>"#,
        "inner inner2",
    );
    check_comment(Matcher::new().css(".root").css("span"), r#"<div class="root">outer<span><!--inner--></span></div><span><!--other--></span>"#, "inner");
    check_all(
        Matcher::new().css(".root").css("span"),
        r#"<div class="root">outer<span id="a">inner<!--c1--></span><!--div comment--></div><span id="b">other<!--c2--></span>"#,
        "a",
        "c1",
        "inner",
        "inner",
    );

    // on_text_chunk() — text in nested elements is included
    check_text(Matcher::new().css("p"), r#"<p>one <b>two</b></p>"#, "one  two");

    // on_text_chunk() — text outside the excluded selector
    check_text(Matcher::new().not(Matcher::new().css("a")), r#"<a>skip</a><span>keep</span>"#, "keep");

    // on_text() — descendant text is concatenated once per matched element
    check_aggregated(Matcher::new().css("p"), r#"<p>one <b>two</b></p>"#, "one two");

    // on_text() — no space is inserted between sibling elements (cheerio textContent)
    check_aggregated(Matcher::new().css("div"), r#"<div>alpha<b>beta</b>gamma</div>"#, "alphabetagamma");

    // on_text() — nested matches emit once per element
    check_aggregated(Matcher::new().css("div"), r#"<div>outer<div>inner</div></div>"#, "inner outerinner");

    // on_text_chunk() vs on_text() — chunks are per text node, on_text is per element
    check_all(Matcher::new().css("p"), r#"<p id="a">one<b>two</b></p>"#, "a", "", "onetwo", "one two");

    // on_text() — text outside the excluded selector
    check_aggregated(Matcher::new().not(Matcher::new().css("a")), r#"<a>skip</a><span>keep</span>"#, "keep");

    // on_text() — chained selector
    check_aggregated(Matcher::new().css(".root").css("span"), r#"<div class="root">outer<span>inner</span></div><span>other</span>"#, "inner");

    // on_comment() — comments in nested elements are included
    check_comment(Matcher::new().css("p"), r#"<p><!--one--><b><!--two--></b></p>"#, "one two");

    // on_comment() — comments outside the excluded selector
    check_comment(Matcher::new().not(Matcher::new().css("a")), r#"<a><!--skip--></a><span><!--keep--></span>"#, "keep");

    // on_comment() — comment inside a comment
    check_comment(Matcher::new().css("a"), r#"<a><!--outer <!--inner--></a><span><!--skip--></span>"#, "outer <!--inner");
}

#[test]
fn matcher_comparisons() {
    // not() — matched ancestor must satisfy not(); gap_without() — gap ancestry must satisfy not()
    let blocked_html = r#"<div class="root"><i id="a"></i><section><i id="b"></i></section><section class="blocked"><i id="x"></i></section></div>"#;
    check(Matcher::new().css(".root").not(Matcher::new().css(".blocked")).css("i"), blocked_html, "b");
    check(Matcher::new().css(".root").gap_without(Matcher::new().css(".blocked")).css("i"), blocked_html, "a b");

    // every() — all matchers on the same element; gap_with_every() — matchers on distinct gap elements
    let red_blue_html = r#"<div class="root"><div class="red blue"><i id="nested-both"></i></div><section class="red"><b class="blue"><i id="via-gap"></i></b></section></div>"#;
    check(Matcher::new().css(".root").every(vec![Matcher::new().css(".red"), Matcher::new().css(".blue")]).css("i"), red_blue_html, "nested-both");
    check(
        Matcher::new().css(".root").gap_with_every(vec![Matcher::new().css(".red"), Matcher::new().css(".blue")]).css("i"),
        red_blue_html,
        "nested-both via-gap",
    );

    // direct() — same matches as the ".a > .b" CSS combinator
    let direct_html = r#"<div class="a"><span class="b" id="a"></span></div><span class="b" id="y"></span>"#;
    check(Matcher::new().css(".a > .b"), direct_html, "a");
    check(Matcher::new().css(".a").direct().css(".b"), direct_html, "a");

    // direct() + filter() — CSS ".a > .b" cannot apply an arbitrary predicate on the parent
    let filter_direct_html = r#"<div data="main"><i id="a"></i></div><div data="main"><span id="x"></span></div><div><i id="z"></i></div>"#;
    check(
        Matcher::new().filter("div", |el: &ElementView| el.get_attribute("data").as_deref() == Some("main")).direct().not(Matcher::new().css("span")),
        filter_direct_html,
        "a",
    );
    check(Matcher::new().css("div > i"), filter_direct_html, "a z");
}

#[test]
fn matcher_asymptotic_complexity() {
    // D = N here: every element except the deepest one is an ancestor.
    // Doubling N must exactly double the number of DFA transitions.
    let depths = [32, 64, 128, 256, 512];
    let baseline = matcher_operation_count(depths[0]);
    assert!(baseline > 0);
    for depth in depths.into_iter().skip(1) {
        assert_eq!(matcher_operation_count(depth) * depths[0], baseline * depth);
    }
}


// ---------------------------------------------------------------- plan streaming

fn strings(value: &Value) -> Vec<String> {
    value.as_list().expect("expected List").iter().map(|v| v.as_str().expect("expected Str").to_string()).collect()
}

/// Runs the streaming plan over `html`: the engine reports the plan chain's starts and
/// ends to the plan, which collects the result.
fn run_streaming(streaming: Streaming, html: &str) -> Value {
    let streaming = Rc::new(RefCell::new(streaming));
    let engine = streaming.borrow_mut().take_engine();
    let chain = streaming.borrow().chain();
    let mut hooks = Hooks::default();
    let on_enter = streaming.clone();
    hooks.on_enter.insert(chain, Box::new(move |instance, _node, depth, el| on_enter.borrow_mut().enter(instance, depth, el)));
    let on_exit = streaming.clone();
    hooks.on_exit.insert(chain, Box::new(move |instance| on_exit.borrow_mut().exit(instance)));
    exec(engine_handlers(engine, hooks).0, html);
    let result = streaming.borrow_mut().take();
    result
}

fn item_ids_plan() -> Plan {
    Builder::new().root().find_css(".item").attr("id").map(unwrap_or_empty_str).fold().build_plan()
}

/// Streaming sequence equals the offline evaluator (and the expected list).
fn check_seq(html: &str, expected: &[&str]) {
    let plan = item_ids_plan();
    assert_eq!(strings(&plan.eval(html)), expected);
    assert_eq!(strings(&run_streaming(plan.streaming().unwrap(), html)), expected);
}

#[test]
fn flat_expand_fold_return() {
    check_seq(
        r#"
        <div class="item" id="a"></div>
        <span>skip</span>
        <div class="item" id="b"></div>
        <div class="item"></div>
        "#,
        &["a", "b", ""],
    );

    check_seq(
        r#"
        <div class="item" id="outer">
            <div class="item" id="inner"></div>
        </div>
        <div class="item" id="sibling"></div>
        "#,
        &["outer", "inner", "sibling"],
    );
}

fn prefix_id(args: &[Value]) -> Value {
    assert!(args.len() == 1);
    Value::str(&format!("id:{}", args[0].as_str().expect("Str")))
}

fn check_ids(html: &str, expected: &[&str]) {
    let plan = Builder::new().root().find_css(".item").attr("id").map(unwrap_or_empty_str).fold().build_plan();
    assert_eq!(strings(&run_streaming(plan.streaming().unwrap(), html)), expected);
}

fn check_tags(html: &str, expected: &[&str]) {
    let plan = Builder::new().root().find_css(".item").tag().fold().build_plan();
    assert_eq!(strings(&run_streaming(plan.streaming().unwrap(), html)), expected);
}

fn check_prefixed(html: &str, expected: &[&str]) {
    let plan = Builder::new().root().find_css(".item").attr("id").map(unwrap_or_empty_str).map(prefix_id).fold().build_plan();
    assert_eq!(strings(&run_streaming(plan.streaming().unwrap(), html)), expected);
}

#[test]
fn plan_streaming_take() {
    // Plan-owned Fold/Return: the result comes from take(), not from a list closed over in a callback.
    check_ids(
        r#"
        <div class="item" id="a"></div>
        <span>skip</span>
        <div class="item" id="b"></div>
        "#,
        &["a", "b"],
    );

    // Missing attr -> Null -> mapped to "" inside the plan (Apply), then folded.
    check_ids(
        r#"
        <div class="item" id="a"></div>
        <div class="item"></div>
        <div class="item" id="c"></div>
        "#,
        &["a", "", "c"],
    );

    // Field(tag) fold — same handlers and take surface, another projection.
    check_tags(
        r#"
        <div class="item" id="a"></div>
        <span class="item" id="b"></span>
        "#,
        &["div", "span"],
    );

    // Chained Apply before Fold.
    check_prefixed(
        r#"
        <div class="item" id="a"></div>
        <div class="item" id="b"></div>
        "#,
        &["id:a", "id:b"],
    );
}

#[test]
fn streaming_without_matches_is_empty() {
    check_ids(r#"<p id="a"></p>"#, &[]);
    let plan = Builder::new().root().find_css(".item").tag().fold().build_plan();
    let mut streaming = plan.streaming().unwrap();
    // No document at all: the fold's identity.
    let _engine = streaming.take_engine();
    assert!(strings(&streaming.take()).is_empty());
}

#[test]
fn leaf_matched_skips_an_element_its_predicate_rejects() {
    let mut engine = Engine::new();
    let chain = engine.add_chain(vec![Step::Filter("div".into(), false)], Vec::new());
    engine.on_enter(chain);
    let (mut runtime, leaves) = engine.into_runtime();
    let div = leaves.iter().position(|leaf| leaf.selector == "div").unwrap();
    // The predicate rejects the first element: it is not reported.
    runtime.leaf_matched(div, Some(false));
    let enter = runtime.enter(false);
    assert!(enter.activations.is_empty());
    // The predicate accepts the second: it is reported.
    runtime.leaf_matched(div, Some(true));
    let enter = runtime.enter(false);
    assert_eq!(enter.activations.len(), 1);
}

#[test]
fn every_activation_of_an_element_shares_its_node_id() {
    let mut engine = Engine::new();
    let first = engine.add_chain(vec![Step::Filter("div".into(), false)], Vec::new());
    let second = engine.add_chain(vec![Step::Filter("div".into(), false)], Vec::new());
    engine.on_enter(first);
    engine.on_enter(second);
    let (mut runtime, leaves) = engine.into_runtime();
    let hits: Vec<usize> = (0..leaves.len()).collect();
    let mut seen: Vec<(u64, u64)> = Vec::new();
    for _ in 0..2 {
        for &leaf in &hits {
            runtime.leaf_matched(leaf, None);
        }
        let enter = runtime.enter(false);
        assert_eq!(enter.activations.len(), 2);
        for activation in &enter.activations {
            seen.push((activation.node_id, activation.instance));
        }
    }
    // Node ids count the elements started before; instance ids are issued 0, 1, 2, 3.
    assert_eq!(seen, vec![(0, 0), (0, 1), (1, 2), (1, 3)]);
}
