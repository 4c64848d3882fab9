use cutaway::input::{KeyboardManager, MouseButton, MouseButtonState, MouseManager};

#[test]
fn mouse_edges_settle_on_new_frame() {
    let mut m = MouseManager::new();
    assert_eq!(m.button_state(MouseButton::Left), MouseButtonState::Released);
    assert!(!m.is_pressed(MouseButton::Left));
    m.update(MouseButton::Left, true);
    assert_eq!(m.button_state(MouseButton::Left), MouseButtonState::JustPressed);
    assert!(m.is_pressed(MouseButton::Left));
    m.on_new_frame();
    assert_eq!(m.button_state(MouseButton::Left), MouseButtonState::Pressed);
    m.update(MouseButton::Left, false);
    assert_eq!(m.button_state(MouseButton::Left), MouseButtonState::JustReleased);
    assert!(!m.is_pressed(MouseButton::Left));
    m.on_new_frame();
    assert_eq!(m.button_state(MouseButton::Left), MouseButtonState::Released);
    m.update(MouseButton::Other(7), true);
    assert_eq!(m.button_state(MouseButton::Other(7)), MouseButtonState::JustPressed);
    assert_eq!(m.button_state(MouseButton::Other(8)), MouseButtonState::Released);
    assert_eq!(m.button_state(MouseButton::Right), MouseButtonState::Released);
}

#[test]
fn mouse_positions_per_frame() {
    let mut m = MouseManager::new();
    m.update_position((10, 20));
    assert_eq!(m.position(), (10, 20));
    assert_eq!(m.last_position(), (0, 0));
    m.update_position((11, 21));
    assert_eq!(m.last_position(), (0, 0));
    m.on_new_frame();
    m.update_position((15, 25));
    assert_eq!(m.last_position(), (11, 21));
    assert_eq!(m.position(), (15, 25));
}

#[test]
fn keyboard_state() {
    let mut k = KeyboardManager::new();
    assert!(!k.is_pressed(3));
    k.update(Some(3), true);
    assert!(k.is_pressed(3));
    k.update(None, false);
    assert!(k.is_pressed(3));
    k.update(Some(4), true);
    k.update(Some(3), false);
    assert!(!k.is_pressed(3));
    assert!(k.is_pressed(4));
}
