use blog_os_verified::interrupts::{handle_scancode, KeyOutput, KeyboardState};

#[test]
fn key_press_gives_its_letter_and_release_gives_nothing() {
    let mut k = KeyboardState::new();
    assert_eq!(handle_scancode(&mut k, 0x1e), Some(KeyOutput::Char('a')));
    assert_eq!(handle_scancode(&mut k, 0x9e), None);
}

#[test]
fn shift_is_remembered_between_scancodes() {
    let mut k = KeyboardState::new();
    assert_eq!(handle_scancode(&mut k, 0x2a), None);
    assert_eq!(handle_scancode(&mut k, 0x1e), Some(KeyOutput::Char('A')));
    assert_eq!(handle_scancode(&mut k, 0xaa), None);
    assert_eq!(handle_scancode(&mut k, 0x1e), Some(KeyOutput::Char('a')));
}

#[test]
fn function_key_gives_a_raw_key() {
    let mut k = KeyboardState::new();
    assert_eq!(handle_scancode(&mut k, 0x3b), Some(KeyOutput::RawKey(pc_keyboard::KeyCode::F1)));
}

#[test]
fn extended_prefix_waits_for_the_next_byte() {
    let mut k = KeyboardState::new();
    assert_eq!(handle_scancode(&mut k, 0xe0), None);
    assert_eq!(
        handle_scancode(&mut k, 0x48),
        Some(KeyOutput::RawKey(pc_keyboard::KeyCode::ArrowUp))
    );
}
