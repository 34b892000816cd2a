use mazegen::trigger::{should_restart, Key, KeyEvent, KeyState};

#[test]
fn no_event_no_restart() {
    assert!(!should_restart(&Vec::new()));
}

#[test]
fn r_pressed_restarts() {
    let events = vec![KeyEvent { key: Key::KeyR, state: KeyState::Pressed }];
    assert!(should_restart(&events));
}

#[test]
fn r_released_does_not_restart() {
    let events = vec![KeyEvent { key: Key::KeyR, state: KeyState::Released }];
    assert!(!should_restart(&events));
}

#[test]
fn other_keys_do_not_restart() {
    let events = vec![
        KeyEvent { key: Key::Other, state: KeyState::Pressed },
        KeyEvent { key: Key::Other, state: KeyState::Released },
    ];
    assert!(!should_restart(&events));
}

#[test]
fn r_pressed_among_other_events_restarts() {
    let events = vec![
        KeyEvent { key: Key::Other, state: KeyState::Pressed },
        KeyEvent { key: Key::KeyR, state: KeyState::Released },
        KeyEvent { key: Key::KeyR, state: KeyState::Pressed },
        KeyEvent { key: Key::Other, state: KeyState::Released },
    ];
    assert!(should_restart(&events));
}
