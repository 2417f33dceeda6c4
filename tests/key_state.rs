use graphics::key::{KeyState, KeyStateMap};

#[test]
fn key_state_is_pressing() {
    assert!(KeyState::Press.is_pressing());
    assert!(KeyState::Kept.is_pressing());
    assert!(!KeyState::Release.is_pressing());
}

#[test]
fn new_map_is_empty() {
    let m = KeyStateMap::new();
    assert!(m.iter().is_empty());
    assert_eq!(m.get("w"), None);
    assert!(!m.is_pressing("w"));
}

#[test]
fn press_twice_before_tick_is_debounced() {
    let mut m = KeyStateMap::new();
    m.notify_press("w".to_string());
    assert!(m.is_pressing("w"));
    m.notify_press("w".to_string());
    assert_eq!(m.iter().len(), 1);
    assert_eq!(m.get("w"), Some(&KeyState::Press));
    assert!(m.is_pressing("w"));
    m.update();
    assert_eq!(m.get("w"), Some(&KeyState::Kept));
    assert!(m.is_pressing("w"));
}

#[test]
fn press_after_tick_keeps_held_state() {
    let mut m = KeyStateMap::new();
    m.notify_press("w".to_string());
    m.update();
    m.notify_press("w".to_string());
    assert_eq!(m.get("w"), Some(&KeyState::Kept));
    assert_eq!(m.iter().len(), 1);
}

#[test]
fn release_then_tick_removes_entry() {
    let mut m = KeyStateMap::new();
    m.notify_press("w".to_string());
    m.update();
    m.notify_release("w".to_string());
    assert_eq!(m.get("w"), Some(&KeyState::Release));
    assert!(!m.is_pressing("w"));
    m.update();
    assert_eq!(m.get("w"), None);
    assert!(!m.is_pressing("w"));
    assert!(m.iter().is_empty());
}

#[test]
fn release_of_unseen_key_adds_release_entry() {
    let mut m = KeyStateMap::new();
    m.notify_release("x".to_string());
    assert_eq!(m.get("x"), Some(&KeyState::Release));
    m.update();
    assert_eq!(m.get("x"), None);
}

#[test]
fn insert_replaces_existing_state() {
    let mut m = KeyStateMap::new();
    m.insert("a".to_string(), KeyState::Press);
    m.insert("b".to_string(), KeyState::Kept);
    m.insert("a".to_string(), KeyState::Release);
    assert_eq!(m.iter().len(), 2);
    assert_eq!(m.get("a"), Some(&KeyState::Release));
    assert_eq!(m.get("b"), Some(&KeyState::Kept));
}

#[test]
fn update_advances_and_retires_entries() {
    let mut m = KeyStateMap::new();
    m.insert("a".to_string(), KeyState::Press);
    m.insert("b".to_string(), KeyState::Kept);
    m.insert("c".to_string(), KeyState::Release);
    m.update();
    assert_eq!(m.get("a"), Some(&KeyState::Kept));
    assert_eq!(m.get("b"), Some(&KeyState::Kept));
    assert_eq!(m.get("c"), None);
    assert_eq!(m.iter().len(), 2);
}

#[test]
fn purge_releases_every_key_until_next_tick() {
    let mut m = KeyStateMap::new();
    m.notify_press("a".to_string());
    m.notify_press("b".to_string());
    m.update();
    m.notify_press("c".to_string());
    m.purge();
    assert_eq!(m.iter().len(), 3);
    for (_, state) in m.iter() {
        assert_eq!(*state, KeyState::Release);
    }
    assert!(!m.is_pressing("a"));
    assert!(!m.is_pressing("c"));
    m.update();
    assert!(m.iter().is_empty());
}

#[test]
fn iter_lists_each_key_once() {
    let mut m = KeyStateMap::new();
    m.notify_press("a".to_string());
    m.notify_press("b".to_string());
    m.notify_press("a".to_string());
    let mut keys: Vec<&str> = m.iter().iter().map(|(k, _)| k.as_str()).collect();
    keys.sort();
    assert_eq!(keys, vec!["a", "b"]);
}
