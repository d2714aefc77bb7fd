use rooibos::events::key::{
    KeyCode, KeyEvent, KeyEventKind, KeyEventState, KeyModifiers, ALT_BIT, CONTROL_BIT, SHIFT_BIT,
};

fn shift() -> KeyModifiers {
    KeyModifiers::from_bits_retain(SHIFT_BIT)
}

#[test]
fn upper_case_letter_gains_shift() {
    let e = KeyEvent::new(KeyCode::Char('A'), KeyModifiers::empty()).normalize_case();
    assert_eq!(e.code, KeyCode::Char('A'));
    assert!(e.modifiers.contains(shift()));
}

#[test]
fn shifted_lower_case_letter_becomes_upper_case() {
    let e = KeyEvent::new(KeyCode::Char('q'), shift()).normalize_case();
    assert_eq!(e.code, KeyCode::Char('Q'));
    assert_eq!(e.modifiers.bits(), SHIFT_BIT);
}

#[test]
fn plain_lower_case_letter_is_unchanged() {
    let e = KeyEvent::new(KeyCode::Char('q'), KeyModifiers::empty()).normalize_case();
    assert_eq!(e.code, KeyCode::Char('q'));
    assert_eq!(e.modifiers.bits(), 0);
}

#[test]
fn other_keys_are_unchanged() {
    let e = KeyEvent::new(KeyCode::Enter, shift()).normalize_case();
    assert_eq!(e.code, KeyCode::Enter);
    assert_eq!(e.modifiers.bits(), SHIFT_BIT);
}

#[test]
fn normalize_case_is_idempotent() {
    for e in [
        KeyEvent::new(KeyCode::Char('a'), shift()),
        KeyEvent::new(KeyCode::Char('Z'), KeyModifiers::empty()),
        KeyEvent::new(KeyCode::Char('1'), shift()),
        KeyEvent::new(KeyCode::Tab, KeyModifiers::from_bits_retain(CONTROL_BIT)),
    ] {
        let once = e.normalize_case();
        let twice = once.normalize_case();
        assert_eq!(once.code, twice.code);
        assert_eq!(once.modifiers.bits(), twice.modifiers.bits());
    }
}

#[test]
fn events_differing_only_in_case_are_equal() {
    let a = KeyEvent::new(KeyCode::Char('A'), KeyModifiers::empty());
    let b = KeyEvent::new(KeyCode::Char('a'), shift());
    assert!(a == b);
    assert!(b == a);
}

#[test]
fn events_with_different_modifiers_differ() {
    let a = KeyEvent::new(KeyCode::Char('a'), KeyModifiers::empty());
    let b = KeyEvent::new(KeyCode::Char('a'), KeyModifiers::from_bits_retain(ALT_BIT));
    assert!(a != b);
}

#[test]
fn new_event_is_a_press_without_state() {
    let e = KeyEvent::new(KeyCode::Esc, KeyModifiers::empty());
    assert_eq!(e.kind, KeyEventKind::Press);
    assert_eq!(e.state.bits(), KeyEventState::empty().bits());
}

#[test]
fn modifiers_insert_and_remove() {
    let mut m = KeyModifiers::empty();
    m.insert(KeyModifiers::from_bits_retain(CONTROL_BIT));
    m.insert(shift());
    assert!(m.contains(shift()));
    assert_eq!(m.bits(), SHIFT_BIT | CONTROL_BIT);
    m.remove(shift());
    assert!(!m.contains(shift()));
    assert_eq!(m.bits(), CONTROL_BIT);
}

#[test]
fn a_character_without_upper_case_drops_shift() {
    let e = KeyEvent::new(KeyCode::Char('1'), shift()).normalize_case();
    assert_eq!(e.code, KeyCode::Char('1'));
    assert_eq!(e.modifiers.bits(), 0);
    assert!(KeyEvent::new(KeyCode::Char('1'), shift()) == KeyEvent::new(KeyCode::Char('1'), KeyModifiers::empty()));
}
