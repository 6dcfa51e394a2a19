use tokitest::label_spec::{LabelError, LabelTrait, OrLabel, RegexLabel, RepeatedLabel, StringLabel};

#[test]
fn string_label_hits_on_exact_text_only() {
    let mut m = StringLabel::new("L1");
    assert!(!m.reached());
    m.register("L2");
    assert!(!m.reached());
    m.register("L1 block");
    assert!(!m.reached());
    m.register("l1");
    assert!(!m.reached());
    m.register("L1");
    assert!(m.reached());
}

#[test]
fn string_label_is_sticky_until_reset() {
    let mut m = StringLabel::new("L");
    m.register("L");
    m.register("other");
    assert!(m.reached());
    m.reset();
    assert!(!m.reached());
    m.register("L");
    assert!(m.reached());
}

#[test]
fn regex_label_matches_unanchored() {
    let mut m = RegexLabel::new(r"foo*").ok().unwrap();
    m.register("bar");
    assert!(!m.reached());
    m.register("xxfoobar");
    assert!(m.reached());
    m.reset();
    assert!(!m.reached());
}

#[test]
fn regex_label_with_anchors() {
    let mut m = RegexLabel::new(r"^odd_\d+$").ok().unwrap();
    m.register("even_2");
    assert!(!m.reached());
    m.register("odd_3 block");
    assert!(!m.reached());
    m.register("odd_3");
    assert!(m.reached());
}

#[test]
fn regex_label_rejects_invalid_pattern() {
    match RegexLabel::new(r"(unclosed") {
        Err(LabelError::InvalidPattern(msg)) => assert!(!msg.is_empty()),
        Ok(_) => panic!("an unclosed group must not compile"),
    }
}

#[test]
fn repeated_label_counts_inner_hits() {
    let mut m = RepeatedLabel::new(StringLabel::new("L"), 5);
    for i in 0..4 {
        m.register("L");
        assert!(!m.reached(), "reached after {} hits", i + 1);
        m.register("L block");
    }
    m.register("M");
    assert!(!m.reached());
    m.register("L");
    assert!(m.reached());
    m.register("L");
    assert!(m.reached());
    m.reset();
    assert!(!m.reached());
}

#[test]
fn repeated_label_zero_count_is_reached_at_once() {
    let m = RepeatedLabel::new(StringLabel::new("L"), 0);
    assert!(m.reached());
}

#[test]
fn or_label_any_child() {
    let mut m = OrLabel::new(vec![StringLabel::new("even"), StringLabel::new("odd")]);
    assert!(!m.reached());
    m.register("neither");
    assert!(!m.reached());
    m.register("odd");
    assert!(m.reached());
    m.reset();
    assert!(!m.reached());
    m.register("even");
    assert!(m.reached());
}

#[test]
fn or_label_empty_is_never_reached() {
    let mut m: OrLabel<StringLabel> = OrLabel::new(vec![]);
    m.register("x");
    assert!(!m.reached());
}

#[test]
fn repeated_any_of_counts_labels_of_either_kind() {
    let or_label = OrLabel::new(vec![StringLabel::new("even_number"), StringLabel::new("odd_number")]);
    let mut m = RepeatedLabel::new(or_label, 5);
    let labels = ["even_number", "odd_number", "even_number", "odd_number", "even_number"];
    for (i, l) in labels.iter().enumerate() {
        assert!(!m.reached());
        m.register(l);
        assert_eq!(m.reached(), i == 4);
    }
}

#[test]
fn repeated_of_repeated() {
    let mut m = RepeatedLabel::new(RepeatedLabel::new(StringLabel::new("L"), 2), 3);
    for i in 0..6 {
        assert!(!m.reached());
        m.register("L");
        assert_eq!(m.reached(), i == 5);
    }
}

#[test]
fn descriptions_name_what_is_awaited() {
    assert_eq!(StringLabel::new("L1").describe(), "\"L1\"");
    assert_eq!(RegexLabel::new("foo*").ok().unwrap().describe(), "/foo*/");
    assert_eq!(RepeatedLabel::new(StringLabel::new("L"), 5).describe(), "5 x \"L\"");
    assert_eq!(
        OrLabel::new(vec![StringLabel::new("a"), StringLabel::new("b")]).describe(),
        "any of [\"a\", \"b\"]"
    );
    let or_label = OrLabel::new(vec![StringLabel::new("even_number"), StringLabel::new("odd_number")]);
    assert_eq!(
        RepeatedLabel::new(or_label, 12).describe(),
        "12 x any of [\"even_number\", \"odd_number\"]"
    );
}

#[test]
fn description_edge_counts() {
    assert_eq!(RepeatedLabel::new(StringLabel::new("x"), 0).describe(), "0 x \"x\"");
    assert_eq!(
        RepeatedLabel::new(StringLabel::new("x"), u64::MAX).describe(),
        "18446744073709551615 x \"x\""
    );
    let empty: OrLabel<StringLabel> = OrLabel::new(vec![]);
    assert_eq!(empty.describe(), "any of []");
    assert_eq!(OrLabel::new(vec![StringLabel::new("only")]).describe(), "any of [\"only\"]");
}
