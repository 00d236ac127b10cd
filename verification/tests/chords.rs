use clefd::chord_state::{ChordState, PressedKey};
use clefd::keysym::{
    KEYSYM_ALT_L, KEYSYM_CAPS_LOCK, KEYSYM_CONTROL_L, KEYSYM_CONTROL_R, KEYSYM_HYPER_R,
    KEYSYM_META_L, KEYSYM_SHIFT_L, KEYSYM_SHIFT_LOCK, KEYSYM_SUPER_L,
};

fn key(code: u32, sym: u32, name: &str) -> PressedKey {
    PressedKey {
        code,
        sym,
        name: String::from(name),
    }
}

#[test]
fn classifies_all_fourteen_modifier_keysyms() {
    for sym in 0xffe1..=0xffee_u32 {
        assert!(ChordState::is_modifier_keysym(sym));
    }
    assert!(ChordState::is_modifier_keysym(KEYSYM_SHIFT_L));
    assert!(ChordState::is_modifier_keysym(KEYSYM_CONTROL_R));
    assert!(ChordState::is_modifier_keysym(KEYSYM_CAPS_LOCK));
    assert!(ChordState::is_modifier_keysym(KEYSYM_SHIFT_LOCK));
    assert!(ChordState::is_modifier_keysym(KEYSYM_META_L));
    assert!(ChordState::is_modifier_keysym(KEYSYM_ALT_L));
    assert!(ChordState::is_modifier_keysym(KEYSYM_SUPER_L));
    assert!(ChordState::is_modifier_keysym(KEYSYM_HYPER_R));
}

#[test]
fn ordinary_keys_are_not_modifiers() {
    assert!(!ChordState::is_modifier_keysym('x' as u32));
    assert!(!ChordState::is_modifier_keysym('a' as u32));
    // Scroll Lock does not take part in chords.
    assert!(!ChordState::is_modifier_keysym(0xff14));
    assert!(!ChordState::is_modifier_keysym(0xffe0));
    assert!(!ChordState::is_modifier_keysym(0xffef));
}

#[test]
fn no_chord_with_only_modifiers_down() {
    let mut state = ChordState::new();
    assert_eq!(state.get_keychord(), None);
    state.add_key(key(37, KEYSYM_CONTROL_L, "Control_L"));
    state.add_key(key(50, KEYSYM_SHIFT_L, "Shift_L"));
    assert_eq!(state.get_keychord(), None);
}

#[test]
fn no_chord_with_two_non_modifiers_down() {
    let mut state = ChordState::new();
    state.add_key(key(53, 'x' as u32, "x"));
    state.add_key(key(29, 'y' as u32, "y"));
    assert_eq!(state.get_keychord(), None);
}

#[test]
fn chord_with_exactly_one_non_modifier_down() {
    let mut state = ChordState::new();
    state.add_key(key(37, KEYSYM_CONTROL_L, "Control_L"));
    state.add_key(key(53, 'x' as u32, "x"));
    assert_eq!(state.get_keychord(), Some(String::from("Control_L x")));
}

#[test]
fn bare_non_modifier_key_makes_a_chord() {
    let mut state = ChordState::new();
    state.add_key(key(53, 'x' as u32, "x"));
    assert_eq!(state.get_keychord(), Some(String::from("x")));
}

#[test]
fn modifiers_sort_alphabetically_in_the_chord() {
    let mut state = ChordState::new();
    state.add_key(key(50, KEYSYM_SHIFT_L, "Shift_L"));
    state.add_key(key(64, KEYSYM_ALT_L, "Alt_L"));
    state.add_key(key(37, KEYSYM_CONTROL_L, "Control_L"));
    state.add_key(key(53, 'x' as u32, "x"));
    assert_eq!(
        state.get_keychord(),
        Some(String::from("Alt_L Control_L Shift_L x"))
    );
}

#[test]
fn chord_is_independent_of_press_order() {
    let mut one = ChordState::new();
    one.add_key(key(10, 'a' as u32, "a"));
    one.add_key(key(37, KEYSYM_CONTROL_L, "Control_L"));
    one.add_key(key(50, KEYSYM_SHIFT_L, "Shift_L"));

    let mut two = ChordState::new();
    two.add_key(key(50, KEYSYM_SHIFT_L, "Shift_L"));
    two.add_key(key(10, 'a' as u32, "a"));
    two.add_key(key(37, KEYSYM_CONTROL_L, "Control_L"));

    let chord = Some(String::from("Control_L Shift_L a"));
    assert_eq!(one.get_keychord(), chord);
    assert_eq!(two.get_keychord(), chord);
}

#[test]
fn pressing_a_pressed_key_changes_nothing() {
    let mut state = ChordState::new();
    assert!(!state.add_key(key(53, 'x' as u32, "x")));
    assert!(!state.add_key(key(53, 'x' as u32, "x")));
    assert_eq!(state.get_keychord(), Some(String::from("x")));
}

#[test]
fn releasing_a_key_removes_it() {
    let mut state = ChordState::new();
    state.add_key(key(37, KEYSYM_CONTROL_L, "Control_L"));
    state.add_key(key(53, 'x' as u32, "x"));
    state.remove_key(37);
    assert_eq!(state.get_keychord(), Some(String::from("x")));
    state.remove_key(53);
    assert_eq!(state.get_keychord(), None);
}

#[test]
fn releasing_an_absent_key_is_a_no_op() {
    let mut state = ChordState::new();
    state.add_key(key(53, 'x' as u32, "x"));
    state.remove_key(99);
    assert_eq!(state.get_keychord(), Some(String::from("x")));
}

#[test]
fn presses_past_capacity_are_dropped() {
    let mut state = ChordState::new();
    for i in 0..16_u32 {
        let dropped = state.add_key(key(100 + i, KEYSYM_CONTROL_L, "Control_L"));
        assert!(!dropped, "the first sixteen presses are kept");
    }
    // The set is full: a new key is dropped, a held key is not.
    assert!(state.add_key(key(200, 'x' as u32, "x")));
    assert!(!state.add_key(key(100, KEYSYM_CONTROL_L, "Control_L")));
    // The dropped key never entered the set: no chord exists.
    assert_eq!(state.get_keychord(), None);
    // Releasing one key makes room again.
    state.remove_key(100);
    assert!(!state.add_key(key(200, 'x' as u32, "x")));
}
