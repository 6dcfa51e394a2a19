use tokitest::advance::{block_label, is_block_label, is_user_label, Advance, END_LABEL, INIT_LABEL};
use tokitest::label_spec::{LabelTrait, OrLabel, RepeatedLabel, StringLabel};

#[test]
fn block_label_appends_suffix() {
    assert_eq!(block_label("label 1"), "label 1 block");
    assert!(is_block_label("label 1 block"));
    assert!(!is_block_label("label 1"));
    assert!(!is_block_label("block"));
    assert!(is_block_label(" block"));
}

#[test]
fn user_labels_exclude_barrier_shape() {
    assert!(is_user_label("label 1"));
    assert!(!is_user_label(INIT_LABEL));
    assert!(!is_user_label(END_LABEL));
    assert!(is_user_label("INIT 2"));
    assert!(!is_user_label(""));
    assert!(!is_user_label("x block"));
}

#[test]
fn advance_skips_barriers_and_stops_at_match() {
    let mut a = Advance::new(StringLabel::new("L2"));
    assert!(!a.announced("INIT"));
    assert!(!a.announced("INIT block"));
    assert!(!a.announced("L1"));
    assert!(!a.announced("L1 block"));
    assert!(a.announced("L2"));
    assert!(a.is_done());
}

#[test]
fn advance_never_matches_barrier() {
    let mut a = Advance::new(StringLabel::new("L block"));
    assert!(!a.announced("L block"));
    assert!(!a.is_done());
}

#[test]
fn advance_to_end() {
    let mut a = Advance::new(StringLabel::new(END_LABEL));
    for l in ["INIT", "INIT block", "label 1", "label 1 block", "label 2", "label 2 block"] {
        assert!(!a.announced(l));
    }
    assert!(a.announced("END"));
}

#[test]
fn advance_repeated_stops_after_fifth() {
    let mut a = Advance::new(RepeatedLabel::new(StringLabel::new("loop label"), 5));
    let mut count = 0;
    loop {
        count += 1;
        if a.announced("loop label") {
            break;
        }
        assert!(!a.announced("loop label block"));
    }
    assert_eq!(count, 5);
    let m = a.into_matcher();
    assert!(m.reached());
}

#[test]
fn advance_any_of_repeated() {
    let or_label = OrLabel::new(vec![StringLabel::new("even_number"), StringLabel::new("odd_number")]);
    let mut a = Advance::new(RepeatedLabel::new(or_label, 5));
    let mut n = 0;
    for i in 0..10 {
        let l = if i % 2 == 0 { "even_number" } else { "odd_number" };
        n += 1;
        if a.announced(l) {
            break;
        }
        assert!(!a.announced(&block_label(l)));
    }
    assert_eq!(n, 5);
}
