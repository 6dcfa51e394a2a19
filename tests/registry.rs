use tokitest::registry::{MainControllerData, Resolution};

#[test]
fn resolve_before_register_installs_waiter() {
    let mut r: MainControllerData<u32, &str> = MainControllerData::new();
    assert_eq!(r.resolve("child", "waiter-1"), Resolution::Waiting);
    assert!(r.lookup("child").is_none());
    assert_eq!(r.add_thread("child", 7), Some("waiter-1"));
    assert_eq!(r.lookup("child"), Some(&7));
}

#[test]
fn register_before_resolve_finds_controller() {
    let mut r: MainControllerData<u32, &str> = MainControllerData::new();
    assert_eq!(r.add_thread("child", 7), None);
    assert!(r.is_registered("child"));
    assert_eq!(r.resolve("child", "waiter-1"), Resolution::Registered);
    assert_eq!(r.lookup("child"), Some(&7));
}

#[test]
fn second_pending_resolve_is_duplicate() {
    let mut r: MainControllerData<u32, &str> = MainControllerData::new();
    assert_eq!(r.resolve("t", "first"), Resolution::Waiting);
    assert_eq!(r.resolve("t", "second"), Resolution::AlreadyWaiting);
    assert_eq!(r.add_thread("t", 1), Some("first"));
    assert_eq!(r.resolve("t", "third"), Resolution::Registered);
}

#[test]
fn waiter_is_fulfilled_once() {
    let mut r: MainControllerData<u32, &str> = MainControllerData::new();
    assert_eq!(r.resolve("a", "w"), Resolution::Waiting);
    assert_eq!(r.add_thread("b", 2), None);
    assert_eq!(r.add_thread("a", 1), Some("w"));
    assert_eq!(r.lookup("a"), Some(&1));
    assert_eq!(r.lookup("b"), Some(&2));
    assert!(!r.is_registered("c"));
}

#[test]
fn isolation_covers_subtree() {
    let mut r: MainControllerData<u32, ()> = MainControllerData::new();
    r.isolate("t1");
    assert!(r.is_isolated("t1"));
    assert!(r.is_isolated("t1.t2"));
    assert!(r.is_isolated("t1.t2.t3"));
    assert!(!r.is_isolated("t10"));
    assert!(!r.is_isolated("t0.t1"));
    assert!(!r.is_isolated(""));
}

#[test]
fn isolation_of_three_segment_id() {
    let mut r: MainControllerData<u32, ()> = MainControllerData::new();
    assert!(!r.is_isolated("a.b.c"));
    r.isolate("a.b.");
    r.isolate("a.bc");
    r.isolate("x");
    assert!(!r.is_isolated("a.b.c"));
    r.isolate("a.b");
    assert!(r.is_isolated("a.b.c"));
    assert!(!r.is_isolated("a.x"));
}

#[test]
fn heal_removes_ancestor_prefixes() {
    let mut r: MainControllerData<u32, ()> = MainControllerData::new();
    r.isolate("t1");
    r.isolate("t1.t2");
    r.isolate("t3");
    r.heal("t1.t2");
    assert!(!r.is_isolated("t1.t2"));
    assert!(!r.is_isolated("t1"));
    assert!(r.is_isolated("t3.x"));
}

#[test]
fn heal_of_parent_keeps_isolated_child() {
    let mut r: MainControllerData<u32, ()> = MainControllerData::new();
    r.isolate("t1");
    r.isolate("t1.t2");
    r.heal("t1");
    assert!(!r.is_isolated("t1"));
    assert!(r.is_isolated("t1.t2"));
}

#[test]
fn isolate_then_heal_then_isolated_again() {
    let mut r: MainControllerData<u32, ()> = MainControllerData::new();
    r.isolate("t1");
    assert!(r.is_isolated("t1.t2"));
    r.heal("t1");
    assert!(!r.is_isolated("t1.t2"));
    r.isolate("t1.t2");
    assert!(r.is_isolated("t1.t2"));
    assert!(!r.is_isolated("t1"));
}
