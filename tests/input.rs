use gloom::input::HeldKeys;

#[test]
fn pressing_twice_holds_once() {
    let mut k = HeldKeys::new();
    k.press(17);
    k.press(17);
    assert_eq!(k.snapshot(), vec![17]);
    assert!(k.is_held(17));
}

#[test]
fn release_keeps_other_keys_in_order() {
    let mut k = HeldKeys::new();
    k.press(1);
    k.press(2);
    k.press(3);
    k.release(2);
    assert_eq!(k.snapshot(), vec![1, 3]);
    assert!(!k.is_held(2));
}

#[test]
fn releasing_an_unheld_key_changes_nothing() {
    let mut k = HeldKeys::new();
    k.press(4);
    k.release(9);
    assert_eq!(k.snapshot(), vec![4]);
}

#[test]
fn nothing_held_at_start() {
    let k = HeldKeys::new();
    assert!(k.snapshot().is_empty());
    assert!(!k.is_held(0));
}
