use telegraph::subscription::Publisher;
use telegraph::types::{Type, TypeClass};
use telegraph::value::Value;

fn publisher() -> Publisher {
    Publisher::new(Type { name: None, type_class: TypeClass::Uint8 })
}

#[test]
fn debounce_suppresses_close_updates() {
    let mut p = publisher();
    let id = p.subscribe(1000, 100).unwrap();
    assert_eq!(p.update(0, Value::Uint8(1)), vec![(id, Value::Uint8(1))]);
    assert_eq!(p.update(10, Value::Uint8(2)), vec![]);
    assert_eq!(p.update(150, Value::Uint8(3)), vec![(id, Value::Uint8(3))]);
    assert_eq!(p.subscription(id).unwrap().last_value, Some(Value::Uint8(3)));
}

#[test]
fn suppressed_update_still_sets_current_value() {
    let mut p = publisher();
    let id = p.subscribe(1000, 100).unwrap();
    p.update(0, Value::Uint8(1));
    p.update(10, Value::Uint8(2));
    assert_eq!(p.value(), Some(Value::Uint8(2)));
    assert_eq!(p.subscription(id).unwrap().last_value, Some(Value::Uint8(1)));
}

#[test]
fn update_reaches_every_subscription_in_order() {
    let mut p = publisher();
    let a = p.subscribe(1000, 0).unwrap();
    let b = p.subscribe(1000, 0).unwrap();
    assert_ne!(a, b);
    assert_eq!(
        p.update(5, Value::Bool(true)),
        vec![(a, Value::Bool(true)), (b, Value::Bool(true))]
    );
}

#[test]
fn poll_delivers_current_value_to_new_subscription() {
    let mut p = publisher();
    p.update(0, Value::Uint8(42));
    let id = p.subscribe(1000, 100).unwrap();
    assert_eq!(p.poll(id, 1), Some(Value::Uint8(42)));
    // again, even inside the debounce window
    assert_eq!(p.poll(id, 2), Some(Value::Uint8(42)));
}

#[test]
fn poll_without_value_or_subscription() {
    let mut p = publisher();
    let id = p.subscribe(1000, 100).unwrap();
    assert_eq!(p.poll(id, 0), None);
    p.update(0, Value::Uint8(1));
    assert_eq!(p.poll(id + 1, 0), None);
}

#[test]
fn cancel_is_idempotent() {
    let mut p = publisher();
    let a = p.subscribe(1000, 0).unwrap();
    let b = p.subscribe(1000, 0).unwrap();
    assert!(p.cancel(a));
    assert!(!p.cancel(a));
    assert_eq!(p.update(0, Value::Uint8(1)), vec![(b, Value::Uint8(1))]);
    assert!(p.subscription(a).is_none());
}

#[test]
fn teardown_cancels_each_once() {
    let mut p = publisher();
    let a = p.subscribe(1000, 0).unwrap();
    let b = p.subscribe(1000, 0).unwrap();
    let c = p.subscribe(1000, 0).unwrap();
    assert!(p.cancel(b));
    assert_eq!(p.teardown(), vec![a, c]);
}

#[test]
fn refresh_resends_last_value() {
    let mut p = publisher();
    let id = p.subscribe(500, 0).unwrap();
    assert_eq!(p.fire_refresh(1000), vec![]);
    p.update(0, Value::Uint8(7));
    assert_eq!(p.fire_refresh(499), vec![]);
    assert_eq!(p.fire_refresh(500), vec![(id, Value::Uint8(7))]);
    assert_eq!(p.fire_refresh(600), vec![]);
    assert_eq!(p.fire_refresh(1000), vec![(id, Value::Uint8(7))]);
}

#[test]
fn change_updates_intervals() {
    let mut p = publisher();
    let id = p.subscribe(1000, 100).unwrap();
    assert!(p.change(id, 5, 50));
    let s = p.subscription(id).unwrap();
    assert_eq!((s.debounce, s.refresh), (5, 50));
    assert!(!p.change(id + 1, 5, 50));
}
