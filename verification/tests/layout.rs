use wm_core::geometry::Rect;
use wm_core::layout::{Layout, LayoutKind, LayoutMessage};
use wm_core::layout_stack::{layouts, LayoutStack};

fn screen() -> Rect {
    Rect { x: 0, y: 0, w: 1000, h: 800 }
}

#[test]
fn side_stack_places_main_and_stack_exactly() {
    let l = Layout::new(LayoutKind::SideStack, 1, 600, 100);
    let windows = vec![1u64, 2, 3];
    let placed = l.place(&windows, screen());
    assert_eq!(placed.len(), 3);
    assert_eq!(placed[0], (1, Rect { x: 0, y: 0, w: 600, h: 800 }));
    assert_eq!(placed[1], (2, Rect { x: 600, y: 0, w: 400, h: 400 }));
    assert_eq!(placed[2], (3, Rect { x: 600, y: 400, w: 400, h: 400 }));
}

#[test]
fn no_windows_no_placements() {
    let l = Layout::new(LayoutKind::SideStack, 1, 600, 100);
    let placed = l.place(&vec![], screen());
    assert!(placed.is_empty());
}

#[test]
fn fewer_windows_than_main_fill_the_screen() {
    let l = Layout::new(LayoutKind::SideStack, 3, 600, 100);
    let placed = l.place(&vec![7u64, 8], screen());
    assert_eq!(placed[0].1, Rect { x: 0, y: 0, w: 1000, h: 400 });
    assert_eq!(placed[1].1, Rect { x: 0, y: 400, w: 1000, h: 400 });
}

#[test]
fn reflected_side_stack_mirrors() {
    let l = Layout::new(LayoutKind::ReflectedSideStack, 1, 600, 100);
    let placed = l.place(&vec![1u64, 2, 3], screen());
    assert_eq!(placed[0].1, Rect { x: 400, y: 0, w: 600, h: 800 });
    assert_eq!(placed[1].1, Rect { x: 0, y: 0, w: 400, h: 400 });
    assert_eq!(placed[2].1, Rect { x: 0, y: 400, w: 400, h: 400 });
}

#[test]
fn bottom_stack_splits_vertically() {
    let l = Layout::new(LayoutKind::BottomStack, 1, 600, 100);
    let placed = l.place(&vec![1u64, 2, 3], screen());
    assert_eq!(placed[0].1, Rect { x: 0, y: 0, w: 1000, h: 480 });
    assert_eq!(placed[1].1, Rect { x: 0, y: 480, w: 500, h: 320 });
    assert_eq!(placed[2].1, Rect { x: 500, y: 480, w: 500, h: 320 });
}

#[test]
fn placements_tile_the_screen_for_many_window_counts() {
    for kind in [LayoutKind::SideStack, LayoutKind::ReflectedSideStack, LayoutKind::BottomStack] {
        for n in 1u64..=50 {
            let l = Layout::new(kind, 2, 600, 100);
            let windows: Vec<u64> = (1..=n).collect();
            let placed = l.place(&windows, screen());
            let area: u64 = placed.iter().map(|p| (p.1.w as u64) * (p.1.h as u64)).sum();
            assert_eq!(area, 1000 * 800, "{kind:?} with {n} windows must cover the screen");
            for (i, a) in placed.iter().enumerate() {
                for b in placed.iter().skip(i + 1) {
                    let disjoint = a.1.x + a.1.w <= b.1.x
                        || b.1.x + b.1.w <= a.1.x
                        || a.1.y + a.1.h <= b.1.y
                        || b.1.y + b.1.h <= a.1.y;
                    assert!(disjoint, "{kind:?} with {n} windows must not overlap");
                }
            }
        }
    }
}

#[test]
fn gaps_inset_every_placement() {
    let mut l = Layout::new(LayoutKind::SideStack, 1, 600, 100);
    l.outer_px = 5;
    l.inner_px = 5;
    let placed = l.arrange(&vec![1u64], screen());
    assert_eq!(placed, vec![(1, Rect { x: 10, y: 10, w: 980, h: 780 })]);
}

#[test]
fn expand_then_shrink_restores_the_ratio() {
    let mut l = Layout::new(LayoutKind::SideStack, 1, 600, 100);
    l.handle_message(LayoutMessage::ExpandMain, 3);
    assert_eq!(l.ratio, 700);
    l.handle_message(LayoutMessage::ShrinkMain, 3);
    assert_eq!(l.ratio, 600);
}

#[test]
fn ratio_saturates_at_the_clamps() {
    let mut l = Layout::new(LayoutKind::SideStack, 1, 900, 100);
    l.handle_message(LayoutMessage::ExpandMain, 3);
    assert_eq!(l.ratio, 950);
    l.handle_message(LayoutMessage::ShrinkMain, 3);
    assert_eq!(l.ratio, 850);
    let mut s = Layout::new(LayoutKind::SideStack, 1, 100, 100);
    s.handle_message(LayoutMessage::ShrinkMain, 3);
    assert_eq!(s.ratio, 50);
}

#[test]
fn inc_main_clamps_to_the_window_count() {
    let mut l = Layout::new(LayoutKind::SideStack, 1, 600, 100);
    // with one visible window the count cannot grow past 1...
    l.handle_message(LayoutMessage::IncMain(1), 1);
    assert_eq!(l.max_main, 1);
    // ...and shrinking then lands at 0, not back at the old value
    l.handle_message(LayoutMessage::IncMain(-1), 1);
    assert_eq!(l.max_main, 0);
    // with more windows visible the count can grow up to their number
    l.handle_message(LayoutMessage::IncMain(1), 3);
    assert_eq!(l.max_main, 1);
    l.handle_message(LayoutMessage::IncMain(1), 3);
    assert_eq!(l.max_main, 2);
    // a count above the visible windows is cut down to them
    let mut wide = Layout::new(LayoutKind::SideStack, 9, 600, 100);
    wide.handle_message(LayoutMessage::IncMain(-1), 3);
    assert_eq!(wide.max_main, 3);
}

#[test]
fn inc_main_saturates_at_zero() {
    let mut l = Layout::new(LayoutKind::SideStack, 1, 600, 100);
    l.handle_message(LayoutMessage::IncMain(-1), 5);
    assert_eq!(l.max_main, 0);
    l.handle_message(LayoutMessage::IncMain(-1), 5);
    assert_eq!(l.max_main, 0);
    l.handle_message(LayoutMessage::IncMain(1), 5);
    assert_eq!(l.max_main, 1);
}

#[test]
fn recomputation_without_mutation_is_idempotent() {
    let mut l = Layout::new(LayoutKind::ReflectedSideStack, 1, 600, 100);
    l.outer_px = 5;
    l.inner_px = 5;
    let windows = vec![4u64, 5, 6, 7];
    let first = l.arrange(&windows, screen());
    let second = l.arrange(&windows, screen());
    assert_eq!(first, second);
}

#[test]
fn configured_stack_matches_the_setup() {
    let s = layouts();
    assert_eq!(s.cursor, 0);
    assert_eq!(s.layouts.len(), 3);
    assert_eq!(s.layouts[0].kind, LayoutKind::SideStack);
    assert_eq!(s.layouts[1].kind, LayoutKind::ReflectedSideStack);
    assert_eq!(s.layouts[2].kind, LayoutKind::BottomStack);
    for l in &s.layouts {
        assert_eq!((l.max_main, l.ratio, l.ratio_step), (1, 600, 100));
        assert_eq!((l.outer_px, l.inner_px), (5, 5));
    }
}

#[test]
fn cycling_the_whole_stack_returns_to_the_start() {
    let mut s = layouts();
    let n = s.layouts.len();
    for _ in 0..n {
        s.next_layout();
    }
    assert_eq!(s.cursor, 0);
    s.previous_layout();
    assert_eq!(s.cursor, n - 1);
    s.next_layout();
    assert_eq!(s.cursor, 0);
}

#[test]
fn messages_reach_only_the_active_layout() {
    let mut s = layouts();
    s.next_layout();
    s.send_message(LayoutMessage::ExpandMain, 3);
    assert_eq!(s.layouts[0].ratio, 600);
    assert_eq!(s.layouts[1].ratio, 700);
    assert_eq!(s.layouts[2].ratio, 600);
}

#[test]
fn stack_constructor_starts_at_the_first_layout() {
    let s = LayoutStack::new(vec![Layout::new(LayoutKind::BottomStack, 2, 500, 50)]);
    assert_eq!(s.cursor, 0);
    assert_eq!(s.layouts[0].max_main, 2);
}

#[test]
fn constructor_clamps_an_out_of_range_ratio() {
    assert_eq!(Layout::new(LayoutKind::SideStack, 1, 5, 100).ratio, 50);
    assert_eq!(Layout::new(LayoutKind::SideStack, 1, 999, 100).ratio, 950);
}

#[test]
fn gaps_compose_with_the_side_stack_geometry() {
    let mut l = Layout::new(LayoutKind::SideStack, 1, 600, 100);
    l.outer_px = 5;
    l.inner_px = 5;
    let placed = l.arrange(&vec![1u64, 2, 3], screen());
    // work area is 990x790 at (5,5); main column 594 wide, stack 396
    assert_eq!(placed[0].1, Rect { x: 10, y: 10, w: 584, h: 780 });
    assert_eq!(placed[1].1, Rect { x: 604, y: 10, w: 386, h: 385 });
    assert_eq!(placed[2].1, Rect { x: 604, y: 405, w: 386, h: 385 });
}
