use lol_query::matcher::matcher::PredicateScope;
use lol_query::matcher::step::{chain_is_valid, Step};

fn css(s: &str) -> Step {
    Step::Filter(s.to_string(), false)
}

#[test]
fn chain_validity_accepts_well_formed_chains() {
    assert!(chain_is_valid(&vec![css("div")]));
    assert!(chain_is_valid(&vec![css("div"), Step::Direct, css("span")]));
    assert!(chain_is_valid(&vec![css("div"), Step::GapWithout(vec![css(".x")]), css("span")]));
    assert!(chain_is_valid(&vec![Step::Every(vec![vec![css("a")], vec![css("b")]])]));
}

#[test]
fn chain_validity_rejects_malformed_chains() {
    assert!(!chain_is_valid(&vec![]));
    assert!(!chain_is_valid(&vec![css("div"), Step::Direct]));
    assert!(!chain_is_valid(&vec![Step::Direct, css("div")]));
    assert!(!chain_is_valid(&vec![css("div"), Step::Direct, Step::GapWithout(vec![css("p")]), css("i")]));
    assert!(!chain_is_valid(&vec![Step::Not(vec![])]));
    assert!(!chain_is_valid(&vec![Step::Any(vec![])]));
    assert!(!chain_is_valid(&vec![Step::Every(vec![vec![css("a"), Step::Direct]])]));
}

#[test]
fn predicate_scope_opens_only_for_passing_elements() {
    let mut scope = PredicateScope::new();
    assert!(!scope.counts());
    let start = scope.start(false, true);
    assert!(!start.report && !start.watch_end && !scope.counts());
    let start = scope.start(true, true);
    assert!(start.report && start.watch_end && scope.counts());
    scope.end();
    assert!(!scope.counts());
    let start = scope.start(true, false);
    assert!(start.report && !start.watch_end && scope.counts());
}
