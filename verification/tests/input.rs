use vkrender::input::{dir_move, CameraMove, InputState, Key};

#[test]
fn keys_set_directions() {
    let mut s = InputState::new();
    assert_eq!(s.move_axes(), (0, 0, 0));
    s.handle_key(Key::KeyW, true);
    assert!(s.is_held(CameraMove::Forward));
    assert_eq!(s.move_axes(), (0, 0, -1));
    s.handle_key(Key::ArrowRight, true);
    assert_eq!(s.move_axes(), (1, 0, -1));
    s.handle_key(Key::KeyS, true);
    assert_eq!(s.move_axes(), (1, 0, 0));
    s.handle_key(Key::KeyW, false);
    assert_eq!(s.move_axes(), (1, 0, 1));
    s.handle_key(Key::ArrowLeft, true);
    assert_eq!(s.move_axes(), (0, 0, 1));
    s.handle_key(Key::Other, true);
    assert_eq!(s.move_axes(), (0, 0, 1));
}

#[test]
fn arrows_match_letters() {
    let mut s = InputState::new();
    s.handle_key(Key::ArrowUp, true);
    assert!(s.is_held(CameraMove::Forward));
    s.handle_key(Key::ArrowDown, true);
    assert!(s.is_held(CameraMove::Backward));
    s.handle_key(Key::KeyA, true);
    assert!(s.is_held(CameraMove::Left));
    s.handle_key(Key::KeyD, true);
    assert!(s.is_held(CameraMove::Right));
    assert!(!s.is_held(CameraMove::Up));
    assert!(!s.is_held(CameraMove::Down));
}

#[test]
fn f_toggles_mouse_look_on_press() {
    let mut s = InputState::new();
    assert!(!s.mouse_look());
    s.handle_key(Key::KeyF, true);
    assert!(s.mouse_look());
    s.handle_key(Key::KeyF, false);
    assert!(s.mouse_look());
    s.handle_key(Key::KeyF, true);
    assert!(!s.mouse_look());
}

#[test]
fn axis_values() {
    assert_eq!(dir_move(true, false), 1);
    assert_eq!(dir_move(false, true), -1);
    assert_eq!(dir_move(true, true), 0);
    assert_eq!(dir_move(false, false), 0);
    assert_eq!(CameraMove::Down.index(), 5);
    assert_eq!(CameraMove::Forward.index(), 0);
}
