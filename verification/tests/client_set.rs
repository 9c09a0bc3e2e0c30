use wm_core::client_set::ClientSet;
use wm_core::errors::WmError;
use wm_core::geometry::Rect;
use wm_core::hooks::feh::Feh;

fn rect() -> Rect {
    Rect { x: 0, y: 0, w: 1000, h: 800 }
}

fn tags(names: &[&str]) -> Vec<String> {
    names.iter().map(|n| n.to_string()).collect()
}

fn fresh(names: &[&str], screens: usize) -> ClientSet {
    ClientSet::new(tags(names), vec![rect(); screens]).unwrap()
}

fn visible_name(cs: &ClientSet) -> String {
    cs.workspaces[cs.screens[cs.current].visible].name.clone()
}

#[test]
fn construction_rejects_bad_tag_tables() {
    assert_eq!(
        ClientSet::new(vec![], vec![rect()]).err(),
        Some(WmError::InvalidTagName)
    );
    assert_eq!(
        ClientSet::new(tags(&["1", "1"]), vec![rect()]).err(),
        Some(WmError::InvalidTagName)
    );
    assert_eq!(
        ClientSet::new(tags(&["1"]), vec![rect(), rect()]).err(),
        Some(WmError::InvalidTagName)
    );
    assert!(ClientSet::new(tags(&["1", "2"]), vec![rect()]).is_ok());
}

#[test]
fn add_and_remove_keep_the_mappings_agreeing() {
    let mut cs = fresh(&["1", "2", "3"], 1);
    for (w, t) in [(10u64, "1"), (11, "1"), (12, "2"), (13, "3")] {
        cs.add_window(w, t).unwrap();
        check_agreement(&cs);
    }
    cs.remove_window(11).unwrap();
    check_agreement(&cs);
    cs.remove_window(10).unwrap();
    check_agreement(&cs);
    cs.remove_window(13).unwrap();
    check_agreement(&cs);
}

/// The runtime mirror of the `wf` invariant's forward/inverse agreement.
fn check_agreement(cs: &ClientSet) {
    for (w, t) in &cs.index {
        assert!(cs.workspaces[*t].windows.contains(w));
    }
    for (i, ws) in cs.workspaces.iter().enumerate() {
        for w in &ws.windows {
            let hits: Vec<_> = cs.index.iter().filter(|e| e.0 == *w).collect();
            assert_eq!(hits.len(), 1);
            assert_eq!(hits[0].1, i);
        }
    }
}

#[test]
fn duplicate_and_unknown_windows_are_refused() {
    let mut cs = fresh(&["1", "2"], 1);
    cs.add_window(10, "1").unwrap();
    assert_eq!(cs.add_window(10, "2"), Err(WmError::DuplicateWindow));
    assert_eq!(cs.add_window(11, "9"), Err(WmError::InvalidTagName));
    assert_eq!(cs.remove_window(99), Err(WmError::UnknownWindow));
}

#[test]
fn new_window_becomes_focused() {
    let mut cs = fresh(&["1"], 1);
    cs.add_window(10, "1").unwrap();
    cs.add_window(11, "1").unwrap();
    assert_eq!(cs.workspaces[0].windows, vec![11, 10]);
    assert_eq!(cs.workspaces[0].focus, 0);
    assert_eq!(cs.kill_focused(), Some(11));
}

#[test]
fn focus_down_then_up_returns_to_the_original_window() {
    let mut cs = fresh(&["1"], 1);
    for w in [10u64, 11, 12] {
        cs.add_window(w, "1").unwrap();
    }
    let before = cs.kill_focused();
    cs.focus_down();
    assert_ne!(cs.kill_focused(), before);
    cs.focus_up();
    assert_eq!(cs.kill_focused(), before);
    cs.focus_up();
    cs.focus_down();
    assert_eq!(cs.kill_focused(), before);
}

#[test]
fn focus_wraps_at_both_ends() {
    let mut cs = fresh(&["1"], 1);
    cs.add_window(10, "1").unwrap();
    cs.add_window(11, "1").unwrap();
    assert_eq!(cs.workspaces[0].focus, 0);
    cs.focus_up();
    assert_eq!(cs.workspaces[0].focus, 1);
    cs.focus_down();
    assert_eq!(cs.workspaces[0].focus, 0);
}

#[test]
fn focus_is_a_no_op_on_tiny_workspaces() {
    let mut cs = fresh(&["1"], 1);
    cs.focus_down();
    assert_eq!(cs.workspaces[0].focus, 0);
    cs.add_window(10, "1").unwrap();
    cs.focus_up();
    assert_eq!(cs.workspaces[0].focus, 0);
}

#[test]
fn swap_exchanges_with_the_neighbour_and_keeps_focus() {
    let mut cs = fresh(&["1"], 1);
    for w in [10u64, 11, 12] {
        cs.add_window(w, "1").unwrap();
    }
    // stacking order is most-recent-first: [12, 11, 10], focus on 12
    cs.swap_down();
    assert_eq!(cs.workspaces[0].windows, vec![11, 12, 10]);
    assert_eq!(cs.kill_focused(), Some(12));
    cs.swap_up();
    assert_eq!(cs.workspaces[0].windows, vec![12, 11, 10]);
    assert_eq!(cs.kill_focused(), Some(12));
    cs.swap_up();
    assert_eq!(cs.workspaces[0].windows, vec![10, 11, 12]);
    assert_eq!(cs.kill_focused(), Some(12));
}

#[test]
fn removing_the_focused_window_moves_focus_to_the_adjacent_entry() {
    let mut cs = fresh(&["1"], 1);
    for w in [10u64, 11, 12] {
        cs.add_window(w, "1").unwrap();
    }
    // [12, 11, 10] focused 12; the next in stacking order takes over
    cs.remove_window(12).unwrap();
    assert_eq!(cs.kill_focused(), Some(11));
    cs.focus_up();
    // focus on 10 (last); removing it steps the cursor back
    assert_eq!(cs.kill_focused(), Some(10));
    cs.remove_window(10).unwrap();
    assert_eq!(cs.kill_focused(), Some(11));
    cs.remove_window(11).unwrap();
    assert_eq!(cs.kill_focused(), None);
}

#[test]
fn unfocused_screen_move_is_a_no_op_and_toggle_returns() {
    let mut cs = fresh(&["1", "2"], 1);
    cs.add_window(1, "1").unwrap();
    cs.add_window(2, "1").unwrap();
    cs.focus_tag("2").unwrap();
    assert_eq!(visible_name(&cs), "2");
    // nothing is focused on the now-visible empty tag: moving is a no-op
    let before_windows = cs.workspaces[0].windows.clone();
    cs.move_focused_to_tag("1").unwrap();
    assert_eq!(cs.workspaces[0].windows, before_windows);
    assert!(cs.workspaces[1].windows.is_empty());
    cs.toggle_tag();
    assert_eq!(visible_name(&cs), "1");
}

#[test]
fn move_focused_lands_in_front_of_the_destination() {
    let mut cs = fresh(&["1", "2"], 1);
    for w in [10u64, 11] {
        cs.add_window(w, "1").unwrap();
    }
    cs.add_window(20, "2").unwrap();
    // visible "1", focused 11
    cs.move_focused_to_tag("2").unwrap();
    assert_eq!(cs.workspaces[0].windows, vec![10]);
    assert_eq!(cs.workspaces[1].windows, vec![11, 20]);
    assert_eq!(cs.workspaces[1].focus, 0);
    check_agreement(&cs);
    assert_eq!(cs.move_focused_to_tag("9"), Err(WmError::InvalidTagName));
}

#[test]
fn moving_to_the_visible_tag_changes_nothing() {
    let mut cs = fresh(&["1", "2"], 1);
    cs.add_window(10, "1").unwrap();
    cs.move_focused_to_tag("1").unwrap();
    assert_eq!(cs.workspaces[0].windows, vec![10]);
}

#[test]
fn screens_cycle_in_creation_order() {
    let mut cs = fresh(&["1", "2", "3"], 3);
    assert_eq!(cs.current, 0);
    cs.next_screen();
    assert_eq!(cs.current, 1);
    cs.next_screen();
    cs.next_screen();
    assert_eq!(cs.current, 0);
    cs.previous_screen();
    assert_eq!(cs.current, 2);
}

#[test]
fn unknown_tag_cannot_be_focused() {
    let mut cs = fresh(&["1"], 1);
    assert_eq!(cs.focus_tag("7"), Err(WmError::InvalidTagName));
    assert_eq!(visible_name(&cs), "1");
}

#[test]
fn startup_hook_names_the_wallpaper_command() {
    let hook = Feh::Center;
    assert_eq!(hook.command(), "feh --no-fehbg --bg-scale ~/.config/feh/bg.png");
}

#[test]
fn adding_to_an_invisible_tag_does_not_touch_the_visible_one() {
    let mut cs = fresh(&["1", "2"], 1);
    cs.add_window(10, "1").unwrap();
    cs.add_window(20, "2").unwrap();
    assert_eq!(visible_name(&cs), "1");
    assert_eq!(cs.workspaces[0].windows, vec![10]);
    assert_eq!(cs.workspaces[1].windows, vec![20]);
    check_agreement(&cs);
}
