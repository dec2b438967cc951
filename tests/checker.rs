use std::collections::HashSet;
use std::rc::Rc;

use ctl_model_checker::checker::Checker;
use ctl_model_checker::ctl::{Formula, FormulaEnum, TemporalFormulaEnum};
use ctl_model_checker::structure::{Label, Model};

fn label(props: &[i32]) -> Label {
    props.iter().cloned().collect::<HashSet<i32>>()
}

fn build(initial: i32, states: &[(i32, Vec<i32>)], edges: &[(i32, i32)]) -> Checker {
    let first = states.iter().find(|(s, _)| *s == initial).unwrap();
    let mut model = Model::new(initial, label(&first.1));
    for (s, l) in states {
        if *s != initial {
            model.add_state(*s, label(l));
        }
    }
    for (o, d) in edges {
        model.add_transition(*o, *d);
    }
    Checker::new(model)
}

fn atomic(p: i32) -> Formula {
    Rc::new(FormulaEnum::Atomic(p))
}

fn and(a: Formula, b: Formula) -> Formula {
    Rc::new(FormulaEnum::And(a, b))
}

fn not(a: Formula) -> Formula {
    Rc::new(FormulaEnum::Not(a))
}

fn ex(a: Formula) -> Formula {
    Rc::new(FormulaEnum::E(Rc::new(TemporalFormulaEnum::X(a))))
}

fn ax(a: Formula) -> Formula {
    Rc::new(FormulaEnum::A(Rc::new(TemporalFormulaEnum::X(a))))
}

fn eu(a: Formula, b: Formula) -> Formula {
    Rc::new(FormulaEnum::E(Rc::new(TemporalFormulaEnum::U(a, b))))
}

fn au(a: Formula, b: Formula) -> Formula {
    Rc::new(FormulaEnum::A(Rc::new(TemporalFormulaEnum::U(a, b))))
}

fn truth() -> Formula {
    not(and(atomic(0), not(atomic(0))))
}

fn falsity() -> Formula {
    and(atomic(0), not(atomic(0)))
}

fn three_states() -> Vec<(i32, Vec<i32>)> {
    vec![(0, vec![0, 1]), (1, vec![1, 2]), (2, vec![2])]
}

const THREE_EDGES: [(i32, i32); 5] = [(0, 1), (1, 2), (2, 0), (1, 0), (2, 2)];

/// The states of `states` at which `f` holds, one checker per initial state.
fn holds_at(states: &[(i32, Vec<i32>)], edges: &[(i32, i32)], f: &Formula) -> Vec<i32> {
    let mut r = Vec::new();
    for (s, _) in states {
        if build(*s, states, edges).check(f) {
            r.push(*s);
        }
    }
    r
}

#[test]
fn scenario_exists_until() {
    let checker = build(0, &three_states(), &THREE_EDGES);
    let property = eu(ex(not(atomic(0))), au(truth(), and(atomic(1), atomic(2))));
    assert!(checker.check(&property));
}

#[test]
fn scenario_forall_next_forall_until() {
    let checker = build(0, &three_states(), &THREE_EDGES);
    let property = ax(au(atomic(1), atomic(0)));
    assert!(!checker.check(&property));
}

#[test]
fn atomic_marks_labelled_states() {
    assert_eq!(holds_at(&three_states(), &THREE_EDGES, &atomic(1)), vec![0, 1]);
    assert_eq!(holds_at(&three_states(), &THREE_EDGES, &atomic(2)), vec![1, 2]);
}

#[test]
fn atomic_absent_everywhere_is_empty() {
    assert_eq!(holds_at(&three_states(), &THREE_EDGES, &atomic(9)), Vec::<i32>::new());
}

#[test]
fn and_intersects() {
    assert_eq!(holds_at(&three_states(), &THREE_EDGES, &and(atomic(1), atomic(2))), vec![1]);
}

#[test]
fn complement_on_three_states() {
    for f in [atomic(0), atomic(2), ex(atomic(0)), au(atomic(1), atomic(0))] {
        let pos = holds_at(&three_states(), &THREE_EDGES, &f);
        let neg = holds_at(&three_states(), &THREE_EDGES, &not(f.clone()));
        for s in [0, 1, 2] {
            assert_ne!(pos.contains(&s), neg.contains(&s));
        }
    }
}

#[test]
fn exists_next_and_forall_next() {
    // successors: 0 -> {1}, 1 -> {2, 0}, 2 -> {0, 2}
    assert_eq!(holds_at(&three_states(), &THREE_EDGES, &ex(atomic(0))), vec![1, 2]);
    assert_eq!(holds_at(&three_states(), &THREE_EDGES, &ax(atomic(2))), vec![0]);
}

#[test]
fn forall_next_vacuous_without_successors() {
    let states = vec![(0, vec![]), (1, vec![])];
    let edges = [(0, 1)];
    assert_eq!(holds_at(&states, &edges, &ax(falsity())), vec![1]);
    assert_eq!(holds_at(&states, &edges, &ax(atomic(5))), vec![1]);
}

#[test]
fn exists_until_contains_goal() {
    let goal = atomic(2);
    let until = eu(atomic(7), goal.clone());
    let g = holds_at(&three_states(), &THREE_EDGES, &goal);
    let u = holds_at(&three_states(), &THREE_EDGES, &until);
    assert_eq!(g, vec![1, 2]);
    assert_eq!(u, vec![1, 2]);
}

#[test]
fn exists_until_propagates_backward() {
    // a chain 0 -> 1 -> 2 -> 3 with p0 on 0..2 and p1 on 3 only
    let states = vec![(0, vec![0]), (1, vec![0]), (2, vec![0]), (3, vec![1]), (4, vec![])];
    let edges = [(0, 1), (1, 2), (2, 3), (4, 3)];
    assert_eq!(holds_at(&states, &edges, &eu(atomic(0), atomic(1))), vec![0, 1, 2, 3]);
}

#[test]
fn forall_until_within_exists_until() {
    let pairs = [
        (atomic(1), atomic(0)),
        (truth(), and(atomic(1), atomic(2))),
        (atomic(2), atomic(0)),
        (ex(atomic(0)), atomic(1)),
    ];
    for (f, g) in pairs {
        let a = holds_at(&three_states(), &THREE_EDGES, &au(f.clone(), g.clone()));
        let e = holds_at(&three_states(), &THREE_EDGES, &eu(f, g));
        for s in a {
            assert!(e.contains(&s));
        }
    }
}

#[test]
fn forall_until_needs_every_branch() {
    // 0 has two successors: 1 satisfies the goal, 2 is a dead end without it
    let states = vec![(0, vec![0]), (1, vec![0, 1]), (2, vec![0]), (3, vec![1])];
    let edges = [(0, 1), (0, 2), (1, 3)];
    assert_eq!(holds_at(&states, &edges, &au(atomic(0), atomic(1))), vec![1, 3]);
    assert_eq!(holds_at(&states, &edges, &eu(atomic(0), atomic(1))), vec![0, 1, 3]);
}

#[test]
fn forall_until_counts_parallel_edges() {
    // two edges 0 -> 1 and one edge 0 -> 2; only 1 reaches the goal
    let states = vec![(0, vec![0]), (1, vec![1]), (2, vec![0])];
    let edges = [(0, 1), (0, 1), (0, 2), (2, 2)];
    assert_eq!(holds_at(&states, &edges, &au(atomic(0), atomic(1))), vec![1]);
    let edges = [(0, 1), (0, 1)];
    assert_eq!(holds_at(&states, &edges, &au(atomic(0), atomic(1))), vec![0, 1]);
}

#[test]
fn forall_until_dead_end_needs_goal() {
    let states = vec![(0, vec![0])];
    assert_eq!(holds_at(&states, &[], &au(atomic(0), atomic(1))), Vec::<i32>::new());
}

#[test]
fn self_loop_absorbs_forall_until() {
    let edges = [(0, 0)];
    let with_goal = vec![(0, vec![0, 1])];
    let without_goal = vec![(0, vec![0])];
    assert_eq!(holds_at(&with_goal, &edges, &au(atomic(0), atomic(1))), vec![0]);
    assert_eq!(holds_at(&without_goal, &edges, &au(atomic(0), atomic(1))), Vec::<i32>::new());
    assert_eq!(holds_at(&without_goal, &edges, &au(truth(), atomic(1))), Vec::<i32>::new());
}

#[test]
fn model_adjacency_and_degree() {
    let mut model = Model::new(0, label(&[0, 1]));
    model.add_state(1, label(&[1, 2]));
    model.add_state(2, label(&[2]));
    for (o, d) in THREE_EDGES {
        model.add_transition(o, d);
    }
    model.add_transition(0, 1);
    assert_eq!(*model.initial_state(), 0);
    assert_eq!(model.states().len(), 3);
    assert_eq!(*model.successors(&0), vec![1, 1]);
    assert_eq!(*model.successors(&1), vec![2, 0]);
    assert_eq!(*model.predecessors(&0), vec![2, 1]);
    assert_eq!(*model.predecessors(&2), vec![1, 2]);
    assert_eq!(model.degree(&0), 2);
    assert_eq!(model.degree(&2), 2);
    assert!(model.label(&1).contains(&2));
    assert!(!model.label(&2).contains(&1));
    assert_eq!(*model.state_list(), vec![0, 1, 2]);
}

#[test]
fn add_state_again_replaces_label_keeps_edges() {
    let mut model = Model::new(0, label(&[0]));
    model.add_state(1, label(&[1]));
    model.add_transition(0, 1);
    model.add_state(1, label(&[3]));
    assert_eq!(model.states().len(), 2);
    assert!(model.label(&1).contains(&3));
    assert!(!model.label(&1).contains(&1));
    assert_eq!(*model.successors(&0), vec![1]);
    assert_eq!(*model.predecessors(&1), vec![0]);
    let checker = Checker::new(model);
    assert!(checker.check(&ex(atomic(3))));
    assert_eq!(*checker.model().initial_state(), 0);
}
