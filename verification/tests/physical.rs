use lol_query::plan::physical::down::{down_ok, DownExtent};
use lol_query::plan::physical::frames::{Frame, Frames};
use lol_query::plan::physical::scope_tree::{depth, is_ancestor_or_eq, is_under, nearest_common_ancestor};

#[test]
fn down_ok_cases() {
    // Child: exactly one deeper
    assert!(down_ok(DownExtent::Child, 0, 1));
    assert!(down_ok(DownExtent::Child, 3, 4));
    assert!(!down_ok(DownExtent::Child, 0, 0));
    assert!(!down_ok(DownExtent::Child, 0, 2));
    assert!(!down_ok(DownExtent::Child, 2, 1));

    // Descendant: any strictly deeper
    assert!(down_ok(DownExtent::Descendant, 0, 1));
    assert!(down_ok(DownExtent::Descendant, 0, 5));
    assert!(down_ok(DownExtent::Descendant, 2, 3));
    assert!(!down_ok(DownExtent::Descendant, 0, 0));
    assert!(!down_ok(DownExtent::Descendant, 3, 3));
    assert!(!down_ok(DownExtent::Descendant, 3, 2));
}

#[test]
fn down_ok_at_the_depth_limit() {
    assert!(!down_ok(DownExtent::Child, u32::MAX, u32::MAX));
    assert!(!down_ok(DownExtent::Child, u32::MAX, 0));
    assert!(down_ok(DownExtent::Child, u32::MAX - 1, u32::MAX));
    // Whatever a child move admits, a descendant move admits.
    for (parent, child) in [(0u32, 1u32), (7, 8), (u32::MAX - 1, u32::MAX)] {
        assert!(down_ok(DownExtent::Child, parent, child));
        assert!(down_ok(DownExtent::Descendant, parent, child));
    }
}

#[test]
fn frames_push_pop_frame_mut() {
    let mut frames = Frames::new(2);
    assert_eq!(frames.pop(0), None);
    assert_eq!(frames.pop(1), None);

    frames.push(0, Frame::new(10, 1, true));
    frames.push(0, Frame::new(11, 2, false));
    assert_eq!(frames.frame_mut(0, 10).depth, 1);
    frames.frame_mut(0, 11).active = true;
    assert!(frames.frame_mut(0, 11).active);

    assert_eq!(frames.pop(0), Some(Frame::new(11, 2, true)));
    assert_eq!(frames.pop(0), Some(Frame::new(10, 1, true)));
    assert_eq!(frames.pop(0), None);

    frames.push(1, Frame::new(20, 3, true));
    assert_eq!(frames.peek(1).map(|f| f.instance), Some(20));
    assert_eq!(frames.pop(1), Some(Frame::new(20, 3, true)));
    assert_eq!(frames.peek(1), None);
}

#[test]
fn frame_mut_finds_the_topmost_of_an_instance() {
    let mut frames = Frames::new(1);
    frames.push(0, Frame::new(5, 1, false));
    frames.push(0, Frame::new(6, 2, false));
    frames.push(0, Frame::new(5, 3, false));
    frames.frame_mut(0, 5).active = true;
    assert_eq!(frames.pop(0), Some(Frame::new(5, 3, true)));
    assert_eq!(frames.pop(0), Some(Frame::new(6, 2, false)));
    assert_eq!(frames.pop(0), Some(Frame::new(5, 1, false)));
}

/// Forest:
/// ```text
///   0
///   ├── 1
///   │   ├── 3
///   │   └── 4
///   └── 2
/// ```
fn parents() -> [Option<usize>; 5] {
    [None, Some(0), Some(0), Some(1), Some(1)]
}

#[test]
fn ancestry_cases() {
    let p = parents();

    assert_eq!(depth(&p, 0), 0);
    assert_eq!(depth(&p, 1), 1);
    assert_eq!(depth(&p, 3), 2);

    assert!(is_ancestor_or_eq(&p, 0, 0));
    assert!(is_ancestor_or_eq(&p, 0, 3));
    assert!(is_ancestor_or_eq(&p, 1, 4));
    assert!(!is_ancestor_or_eq(&p, 2, 3));
    assert!(!is_ancestor_or_eq(&p, 3, 1));

    assert!(!is_under(&p, 0, 0));
    assert!(is_under(&p, 0, 3));
    assert!(!is_under(&p, 2, 3));

    assert_eq!(nearest_common_ancestor(&p, 3, 4), 1);
    assert_eq!(nearest_common_ancestor(&p, 3, 2), 0);
    assert_eq!(nearest_common_ancestor(&p, 1, 3), 1);
    assert_eq!(nearest_common_ancestor(&p, 4, 4), 4);
}

#[test]
fn ancestry_with_parents_after_children() {
    // Parents may come after their children in the slice: 3 -> 0 -> 2 (root), 1 -> 2.
    let p = [Some(2), Some(2), None, Some(0)];
    assert_eq!(depth(&p, 3), 2);
    assert!(is_ancestor_or_eq(&p, 2, 3));
    assert!(is_under(&p, 0, 3));
    assert_eq!(nearest_common_ancestor(&p, 3, 1), 2);
    assert_eq!(nearest_common_ancestor(&p, 0, 3), 0);
}
