use graphics::controls::{pressed_actions, CameraAction};
use graphics::key::{KeyState, KeyStateMap};

#[test]
fn move_forward_key_selects_one_forward_step() {
    let mut m = KeyStateMap::new();
    m.notify_press("e".to_string());
    assert_eq!(pressed_actions(&m), vec![CameraAction::MoveForward]);
    m.update();
    assert_eq!(pressed_actions(&m), vec![CameraAction::MoveForward]);
}

#[test]
fn no_keys_select_no_action() {
    let m = KeyStateMap::new();
    assert!(pressed_actions(&m).is_empty());
}

#[test]
fn unbound_keys_are_ignored() {
    let mut m = KeyStateMap::new();
    m.notify_press("x".to_string());
    m.notify_press("ArrowUp".to_string());
    m.notify_press("W".to_string());
    assert!(pressed_actions(&m).is_empty());
}

#[test]
fn released_key_selects_no_action() {
    let mut m = KeyStateMap::new();
    m.notify_press("e".to_string());
    m.notify_release("e".to_string());
    assert!(pressed_actions(&m).is_empty());
}

#[test]
fn actions_come_in_fixed_order() {
    let mut m = KeyStateMap::new();
    for k in ["j", "k", "l", "i", "a", "d", "s", "w", "q", "e"] {
        m.notify_press(k.to_string());
    }
    assert_eq!(
        pressed_actions(&m),
        vec![
            CameraAction::MoveForward,
            CameraAction::MoveBackward,
            CameraAction::MoveUp,
            CameraAction::MoveDown,
            CameraAction::MoveRight,
            CameraAction::MoveLeft,
            CameraAction::RotateRight,
            CameraAction::RotateLeft,
            CameraAction::RotateUp,
            CameraAction::RotateDown,
        ]
    );
}

#[test]
fn composed_actions_keep_order_whatever_the_press_order() {
    let mut a = KeyStateMap::new();
    a.notify_press("l".to_string());
    a.notify_press("e".to_string());
    let mut b = KeyStateMap::new();
    b.notify_press("e".to_string());
    b.notify_press("l".to_string());
    let expected = vec![CameraAction::MoveForward, CameraAction::RotateRight];
    assert_eq!(pressed_actions(&a), expected);
    assert_eq!(pressed_actions(&b), expected);
}

#[test]
fn held_keys_still_select_their_actions() {
    let mut m = KeyStateMap::new();
    m.insert("w".to_string(), KeyState::Kept);
    m.insert("s".to_string(), KeyState::Release);
    assert_eq!(pressed_actions(&m), vec![CameraAction::MoveUp]);
}

#[test]
fn action_key_bindings() {
    assert_eq!(CameraAction::MoveUp.key(), "w");
    assert_eq!(CameraAction::MoveDown.key(), "s");
    assert_eq!(CameraAction::MoveForward.key(), "e");
    assert_eq!(CameraAction::MoveBackward.key(), "q");
    assert_eq!(CameraAction::MoveRight.key(), "d");
    assert_eq!(CameraAction::MoveLeft.key(), "a");
    assert_eq!(CameraAction::RotateUp.key(), "i");
    assert_eq!(CameraAction::RotateDown.key(), "k");
    assert_eq!(CameraAction::RotateRight.key(), "l");
    assert_eq!(CameraAction::RotateLeft.key(), "j");
}
