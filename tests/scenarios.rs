use tokitest::label_spec::{OrLabel, RepeatedLabel, StringLabel};
use tokitest::simulation::{Simulation, Step};

fn label(l: &str) -> Step {
    Step::Label(l.to_string())
}

/// Appends at three stages, with a label between stages.
fn three_stages() -> Vec<Step> {
    vec![Step::Work(0), label("L1"), Step::Work(1), label("L2"), Step::Work(2)]
}

/// Pushes `offset + 1 ..= offset + 8`, with labels after the second and fifth value.
fn shared_write(offset: i64) -> Vec<Step> {
    vec![
        Step::Work(offset + 1),
        Step::Work(offset + 2),
        label("label 1"),
        Step::Work(offset + 3),
        Step::Work(offset + 4),
        Step::Work(offset + 5),
        label("label 2"),
        Step::Work(offset + 6),
        Step::Work(offset + 7),
        Step::Work(offset + 8),
    ]
}

#[test]
fn one_task_initially_empty() {
    let mut sim = Simulation::new();
    let _t = sim.add_task(&three_stages()).unwrap();
    assert_eq!(*sim.data(), Vec::<i64>::new());
}

#[test]
fn one_task_after_first_label() {
    let mut sim = Simulation::new();
    let t = sim.add_task(&three_stages()).unwrap();
    assert!(sim.advance_to(t, "L1"));
    assert_eq!(*sim.data(), vec![0]);
}

#[test]
fn one_task_after_second_label() {
    let mut sim = Simulation::new();
    let t = sim.add_task(&three_stages()).unwrap();
    assert!(sim.advance_to(t, "L1"));
    assert!(sim.advance_to(t, "L2"));
    assert_eq!(*sim.data(), vec![0, 1]);
}

#[test]
fn one_task_to_end() {
    let mut sim = Simulation::new();
    let t = sim.add_task(&three_stages()).unwrap();
    assert_eq!(*sim.data(), Vec::<i64>::new());
    assert!(sim.advance_to(t, "L1"));
    assert_eq!(*sim.data(), vec![0]);
    assert!(sim.advance_to(t, "L2"));
    assert_eq!(*sim.data(), vec![0, 1]);
    assert!(sim.advance_to_end(t));
    assert_eq!(*sim.data(), vec![0, 1, 2]);
}

#[test]
fn one_task_label_skipped_over() {
    let mut sim = Simulation::new();
    let t = sim.add_task(&three_stages()).unwrap();
    assert!(sim.advance_to(t, "L2"));
    assert_eq!(*sim.data(), vec![0, 1]);
}

#[test]
fn unreachable_label_reports_end() {
    let mut sim = Simulation::new();
    let t = sim.add_task(&three_stages()).unwrap();
    assert!(!sim.advance_to(t, "L3"));
    assert_eq!(*sim.data(), vec![0, 1, 2]);
}

#[test]
fn shared_write_one_task() {
    let mut sim = Simulation::new();
    let t = sim.add_task(&shared_write(0)).unwrap();
    assert_eq!(*sim.data(), Vec::<i64>::new());
    assert!(sim.advance_to(t, "label 1"));
    assert_eq!(*sim.data(), vec![1, 2]);
    assert!(sim.advance_to(t, "label 2"));
    assert_eq!(*sim.data(), vec![1, 2, 3, 4, 5]);
    assert!(sim.advance_to_end(t));
    assert_eq!(*sim.data(), vec![1, 2, 3, 4, 5, 6, 7, 8]);
}

#[test]
fn two_tasks_hand_off() {
    let mut sim = Simulation::new();
    let t0 = sim.add_task(&shared_write(0)).unwrap();
    let t1 = sim.add_task(&shared_write(10)).unwrap();
    assert_eq!(*sim.data(), Vec::<i64>::new());
    assert!(sim.advance_to(t0, "label 1"));
    assert_eq!(*sim.data(), vec![1, 2]);
    assert!(sim.advance_to(t1, "label 2"));
    assert_eq!(*sim.data(), vec![1, 2, 11, 12, 13, 14, 15]);
    assert!(sim.advance_to(t0, "label 2"));
    assert_eq!(*sim.data(), vec![1, 2, 11, 12, 13, 14, 15, 3, 4, 5]);
    assert!(sim.advance_to_end(t0));
    assert_eq!(*sim.data(), vec![1, 2, 11, 12, 13, 14, 15, 3, 4, 5, 6, 7, 8]);
    assert!(sim.advance_to_end(t1));
    assert_eq!(
        *sim.data(),
        vec![1, 2, 11, 12, 13, 14, 15, 3, 4, 5, 6, 7, 8, 16, 17, 18]
    );
}

#[test]
fn repeated_matcher_stops_after_fifth_loop() {
    let mut steps = Vec::new();
    for i in 0..10 {
        steps.push(Step::Work(i));
        steps.push(label("L"));
    }
    let mut sim = Simulation::new();
    let t = sim.add_task(&steps).unwrap();
    assert!(sim.advance(t, RepeatedLabel::new(StringLabel::new("L"), 5)));
    assert_eq!(*sim.data(), vec![0, 1, 2, 3, 4]);
    assert!(sim.advance_to_end(t));
    assert_eq!(*sim.data(), vec![0, 1, 2, 3, 4, 5, 6, 7, 8, 9]);
}

#[test]
fn any_of_repeated_counts_either_label() {
    let mut steps = Vec::new();
    for i in 0..10 {
        steps.push(Step::Work(i));
        steps.push(label(if i % 2 == 0 { "even_number" } else { "odd_number" }));
    }
    let mut sim = Simulation::new();
    let t = sim.add_task(&steps).unwrap();
    let or_label = OrLabel::new(vec![StringLabel::new("even_number"), StringLabel::new("odd_number")]);
    assert!(sim.advance(t, RepeatedLabel::new(or_label, 5)));
    assert_eq!(*sim.data(), vec![0, 1, 2, 3, 4]);
    assert!(sim.advance_to_end(t));
    assert_eq!(*sim.data(), vec![0, 1, 2, 3, 4, 5, 6, 7, 8, 9]);
}

#[test]
fn other_task_advance_leaves_held_task_alone() {
    let mut sim = Simulation::new();
    let t0 = sim.add_task(&three_stages()).unwrap();
    let t1 = sim.add_task(&vec![Step::Work(100), label("X"), Step::Work(101)]).unwrap();
    assert!(sim.advance_to(t0, "L1"));
    assert_eq!(*sim.data(), vec![0]);
    assert!(sim.advance_to_end(t1));
    assert_eq!(*sim.data(), vec![0, 100, 101]);
    assert!(sim.advance_to_end(t0));
    assert_eq!(*sim.data(), vec![0, 100, 101, 1, 2]);
}

#[test]
fn advance_to_init_runs_leading_work() {
    let mut sim = Simulation::new();
    let t = sim.add_task(&three_stages()).unwrap();
    assert!(sim.advance_to(t, "INIT"));
    assert_eq!(*sim.data(), vec![0]);
}

#[test]
fn finished_task_does_not_reach_again() {
    let mut sim = Simulation::new();
    let t = sim.add_task(&three_stages()).unwrap();
    assert!(sim.advance_to_end(t));
    assert!(!sim.advance_to_end(t));
    assert_eq!(*sim.data(), vec![0, 1, 2]);
}

#[test]
fn reserved_labels_are_refused() {
    let mut sim = Simulation::new();
    assert!(sim.add_task(&vec![label("END")]).is_none());
    assert!(sim.add_task(&vec![label("INIT")]).is_none());
    assert!(sim.add_task(&vec![Step::Work(1), label("x block")]).is_none());
    assert!(sim.add_task(&vec![label("")]).is_none());
    assert_eq!(sim.add_task(&vec![label("ok")]), Some(0));
    assert_eq!(sim.add_task(&vec![]), Some(1));
}

#[test]
fn empty_task_runs_init_then_end() {
    let mut sim = Simulation::new();
    let t = sim.add_task(&vec![]).unwrap();
    assert!(sim.advance_to(t, "INIT"));
    assert!(sim.advance_to_end(t));
    assert_eq!(*sim.data(), Vec::<i64>::new());
}
