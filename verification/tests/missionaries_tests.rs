use astar_search::algorithms::a_star::{AStar, Problem as SearchProblem};
use astar_search::problems::missionaries_and_cannibals::{InvalidProblem, Problem, State};

fn state(m: i32, c: i32, left: bool) -> State {
    State { missionaries_at_left: m, cannibals_at_left: c, boat_at_left: left }
}

#[test]
fn create_refuses_more_cannibals_than_missionaries() {
    match Problem::create(2, 3, 2) {
        Err(InvalidProblem::MoreCannibalsThanMissionaries) => {}
        Ok(_) => panic!("accepted more cannibals than missionaries"),
    }
    let p = Problem::create(3, 3, 2).unwrap();
    assert_eq!(p.start_state, state(3, 3, true));
    assert_eq!(p.total_missionaries, 3);
    assert_eq!(p.total_cannibals, 3);
    assert_eq!(p.boat_capacity, 2);
}

#[test]
fn banks_and_current_side() {
    let p = Problem::create(5, 4, 3).unwrap();
    let s = state(2, 1, false);
    assert_eq!(p.missionaries_at_right(&s), 3);
    assert_eq!(p.cannibals_at_right(&s), 3);
    assert_eq!(p.missionaries_at_current_side(&s), 3);
    assert_eq!(p.cannibals_at_current_side(&s), 3);
    let t = state(2, 1, true);
    assert_eq!(p.missionaries_at_current_side(&t), 2);
    assert_eq!(p.cannibals_at_current_side(&t), 1);
}

#[test]
fn validity_of_states() {
    let p = Problem::create(3, 3, 2).unwrap();
    assert!(p.is_state_valid(&state(3, 3, true)));
    assert!(p.is_state_valid(&state(0, 3, true)));
    assert!(!p.is_state_valid(&state(1, 2, true)));
    assert!(!p.is_state_valid(&state(2, 1, true)));
    assert!(p.is_state_valid(&state(1, 1, false)));
}

#[test]
fn children_of_the_start() {
    let p = Problem::create(3, 3, 2).unwrap();
    let children: Vec<State> = p.children(&p.start_state).iter().map(|s| **s).collect();
    // (1, 0) and (2, 0) leave more cannibals on the left, (0, 1), (0, 2) and (1, 1) are valid
    assert_eq!(children, vec![state(3, 2, false), state(3, 1, false), state(2, 2, false)]);
    for c in &children {
        assert!(p.is_state_valid(c));
    }
}

#[test]
fn heuristic_and_goal() {
    let p = Problem::create(3, 3, 2).unwrap();
    assert_eq!(p.heuristic(&state(3, 3, true)), 3);
    assert_eq!(p.heuristic(&state(1, 0, true)), 0);
    assert!(p.is_goal(&state(0, 0, false)));
    assert!(!p.is_goal(&state(0, 0, true)));
    assert_eq!(p.cost(&state(1, 1, true)), 1);
}

#[test]
fn a_star_solves_three_and_three() {
    let p = Problem::create(3, 3, 2).unwrap();
    let mut search = AStar::new(&p);
    let goal = search.next_path().expect("a solution");
    assert_eq!(*goal.state, state(0, 0, false));
    assert_eq!(goal.cost_from_root, 11);
    let mut node = goal.clone();
    let mut steps = 0;
    while let Some(parent) = node.parent.clone() {
        assert!(p.is_state_valid(&node.state));
        assert_ne!(parent.state.boat_at_left, node.state.boat_at_left);
        assert!(p.children(&parent.state).iter().any(|c| **c == *node.state));
        steps += 1;
        node = parent;
    }
    assert_eq!(*node.state, state(3, 3, true));
    assert_eq!(steps, 11);
}

#[test]
fn a_star_finds_no_solution_with_a_small_boat() {
    let p = Problem::create(3, 3, 1).unwrap();
    let mut search = AStar::new(&p);
    assert!(search.next_path().is_none());
    assert_eq!(search.total_nodes_opened(), 0);
}

#[test]
fn a_star_solves_a_larger_problem() {
    let p = Problem::create(60, 40, 7).unwrap();
    let mut search = AStar::new(&p);
    let goal = search.next_path().expect("a solution");
    assert_eq!(*goal.state, state(0, 0, false));
    assert!(goal.cost_from_root % 2 == 1);
}

#[test]
fn children_include_loads_of_all_available_people() {
    let p = Problem::create(3, 3, 2).unwrap();
    let children: Vec<State> = p.children(&state(1, 1, true)).iter().map(|s| **s).collect();
    assert_eq!(children, vec![state(0, 1, false), state(0, 0, false)]);
}

#[test]
fn children_of_a_larger_boat_try_every_mixed_load() {
    let p = Problem::create(5, 5, 4).unwrap();
    let children: Vec<State> = p.children(&state(2, 2, false)).iter().map(|s| **s).collect();
    // from the right bank (3, 3): loads (1,0) (2,0) (3,0) (0,1) (0,2) (0,3) (1,1) (2,1) (3,1) (2,2)
    let mut expected = vec![];
    for load in [(1, 0), (2, 0), (3, 0), (0, 1), (0, 2), (0, 3), (1, 1), (2, 1), (3, 1), (2, 2)] {
        let c = state(2 + load.0, 2 + load.1, true);
        if p.is_state_valid(&c) {
            expected.push(c);
        }
    }
    assert_eq!(children, expected);
    assert!(children.contains(&state(4, 4, true)));
}

#[test]
fn crossing_back_returns_to_the_state_left() {
    let p = Problem::create(3, 3, 2).unwrap();
    let s = state(3, 3, true);
    for c in p.children(&s) {
        assert!(p.children(&c).iter().any(|b| **b == s));
    }
}

#[test]
fn a_star_finds_the_cheapest_crossing_with_a_consistent_heuristic() {
    // with a boat for 3, (m + c) / 3 never drops by more than one per crossing
    let p = Problem::create(3, 3, 3).unwrap();
    let mut search = AStar::new(&p);
    let goal = search.next_path().expect("a solution");
    assert_eq!(*goal.state, state(0, 0, false));
    assert_eq!(goal.cost_from_root, 5);
}
