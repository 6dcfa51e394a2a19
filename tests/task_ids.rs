use tokitest::task_id::{child_id, covers_id, is_valid_segment};

#[test]
fn child_of_root_is_bare_segment() {
    assert_eq!(child_id("", "thread1"), "thread1");
}

#[test]
fn child_of_child_joins_with_dot() {
    let t1 = child_id("", "thread1");
    let t2 = child_id(&t1, "thread2");
    assert_eq!(t2, "thread1.thread2");
    assert_eq!(child_id(&t2, "x"), "thread1.thread2.x");
}

#[test]
fn segments_must_be_non_empty_and_dotless() {
    assert!(is_valid_segment("thread1"));
    assert!(!is_valid_segment(""));
    assert!(!is_valid_segment("a.b"));
    assert!(!is_valid_segment("."));
}

#[test]
fn covers_is_ancestor_or_self() {
    assert!(covers_id("a", "a.b.c"));
    assert!(covers_id("a.b", "a.b.c"));
    assert!(covers_id("a.b.c", "a.b.c"));
    assert!(covers_id("", "a.b.c"));
    assert!(!covers_id("a.", "a.b.c"));
    assert!(!covers_id("a.b.c.d", "a.b.c"));
    assert!(!covers_id("thread1", "thread10"));
    assert!(!covers_id("a.b", "a.bc"));
    assert!(!covers_id("b", "a.b"));
}
