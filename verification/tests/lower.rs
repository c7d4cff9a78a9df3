use lol_query::matcher::match_pattern::MatchPattern;
use lol_query::matcher::step::Step;
use lol_query::plan::lower::bind_down::{classify_down_path, take_down_expand};
use lol_query::plan::physical::down::DownExtent;
use lol_query::plan::representation::path::{NodeTest, Path};

fn css(selector: &str) -> NodeTest {
    NodeTest::matcher(MatchPattern::new().css(selector))
}

#[test]
fn classify_find_and_children() {
    fn test_path(path: &Path, expected: Option<DownExtent>) {
        assert_eq!(classify_down_path(path), expected);
    }
    test_path(&Path::find(css(".item")), Some(DownExtent::Descendant));
    test_path(&Path::children(css("div")), Some(DownExtent::Child));
    test_path(&Path::child_axis().plus(), Some(DownExtent::Descendant));
    test_path(&Path::child_axis(), Some(DownExtent::Child));
    test_path(&Path::next(), None);
}

#[test]
fn take_moves_css_steps() {
    let down = take_down_expand(Path::find(css(".item"))).unwrap();
    assert_eq!(down.extent, DownExtent::Descendant);
    assert!(matches!(&down.steps[..], [Step::Filter(sel, false)] if sel == ".item"));
}

#[test]
fn take_unfiltered_and_rejected_paths() {
    let down = take_down_expand(Path::child_axis()).unwrap();
    assert_eq!(down.extent, DownExtent::Child);
    assert!(matches!(&down.steps[..], [Step::Filter(sel, false)] if sel == "*"));
    assert!(down.predicates.is_empty());
    assert!(take_down_expand(Path::parent()).is_none());
    assert!(take_down_expand(Path::next_all(NodeTest::True)).is_none());
}
