use wm_core::errors::WmError;
use wm_core::keys::{
    parse_bindings, parse_chord, raw_key_bindings, Action, DispatchPhase, KeyDispatcher,
    MOD_ALT, MOD_META, MOD_SHIFT,
};

#[test]
fn bindings_parse_correctly_with_xmodmap() {
    let res = parse_bindings(&raw_key_bindings());

    if let Err(e) = res {
        panic!("{}", e.describe());
    }
}

#[test]
fn chord_modifier_order_is_canonical() {
    let a = parse_chord("M-S-j").unwrap();
    let b = parse_chord("M-j-S").unwrap();
    assert_eq!(a, b);
    assert_eq!(a.mods, MOD_META | MOD_SHIFT);
    assert_eq!(a.key, "j");
}

#[test]
fn chord_with_all_parts() {
    let c = parse_chord("M-A-Escape").unwrap();
    assert_eq!(c.mods, MOD_META | MOD_ALT);
    assert_eq!(c.key, "Escape");
}

#[test]
fn bare_keysym_parses() {
    let c = parse_chord("f1").unwrap();
    assert_eq!(c.mods, 0);
    assert_eq!(c.key, "f1");
}

#[test]
fn chord_without_keysym_is_refused() {
    assert_eq!(parse_chord("M-S"), Err(WmError::KeymapResolutionFailure));
}

#[test]
fn chord_with_empty_token_is_refused() {
    assert_eq!(parse_chord("M--j"), Err(WmError::KeymapResolutionFailure));
    assert_eq!(parse_chord(""), Err(WmError::KeymapResolutionFailure));
}

#[test]
fn chord_with_two_keysyms_is_refused() {
    assert_eq!(parse_chord("M-j-k"), Err(WmError::KeymapResolutionFailure));
}

#[test]
fn bad_chord_fails_the_whole_table() {
    let mut raw = raw_key_bindings();
    raw.push(("M-".to_string(), Action::Exit));
    assert_eq!(parse_bindings(&raw), Err(WmError::KeymapResolutionFailure));
}

#[test]
fn binding_table_has_every_entry() {
    let raw = raw_key_bindings();
    assert_eq!(raw.len(), 38);
    assert_eq!(raw[0], ("M-j".to_string(), Action::FocusDown));
    assert_eq!(raw[19], ("M-A-Escape".to_string(), Action::Exit));
    assert_eq!(raw[20], ("M-1".to_string(), Action::FocusTag("1".to_string())));
    assert_eq!(
        raw[37],
        ("M-S-9".to_string(), Action::MoveFocusedToTag("9".to_string()))
    );
}

#[test]
fn dispatcher_runs_one_action_to_completion() {
    let bindings = parse_bindings(&raw_key_bindings()).unwrap();
    let mut d = KeyDispatcher::new(bindings);
    assert_eq!(d.phase, DispatchPhase::Idle);
    let hit = d.begin(MOD_META, "j");
    let i = hit.expect("M-j is bound");
    assert_eq!(d.phase, DispatchPhase::Dispatching);
    assert_eq!(d.binding_at(i).action, Action::FocusDown);
    d.complete();
    assert_eq!(d.phase, DispatchPhase::Idle);
}

#[test]
fn unrecognized_chord_is_a_no_op() {
    let bindings = parse_bindings(&raw_key_bindings()).unwrap();
    let mut d = KeyDispatcher::new(bindings);
    assert_eq!(d.begin(MOD_META | MOD_SHIFT | MOD_ALT, "z"), None);
    assert_eq!(d.phase, DispatchPhase::Idle);
}

#[test]
fn repeated_modifiers_collapse_into_the_set() {
    let c = parse_chord("M-M-j").unwrap();
    assert_eq!(c.mods, MOD_META);
    assert_eq!(c.key, "j");
}
