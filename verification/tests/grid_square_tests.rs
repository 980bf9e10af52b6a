use astar_search::algorithms::a_star::{AStar, Estimator, Problem as SearchProblem, ProblemEstimator};
use astar_search::problems::grid_square::{InvalidProblem, Problem, State};

fn states(children: Vec<std::rc::Rc<State>>) -> Vec<(u32, u32)> {
    children.iter().map(|s| (s.0, s.1)).collect()
}

#[test]
fn create_refuses_small_grids() {
    for p in 0..=2 {
        match Problem::create(p, State(1, 1), State(2, 2)) {
            Err(InvalidProblem::InvalidLength(l)) => assert_eq!(l, p),
            Ok(_) => panic!("a grid of power {} was accepted", p),
        }
    }
    assert!(Problem::create(3, State(1, 1), State(2, 2)).is_ok());
    assert!(Problem::create_basic(31).is_ok());
}

#[test]
fn create_basic_goes_from_one_one_to_power_power() {
    let p = Problem::create_basic(5).unwrap();
    assert_eq!(p.start_state(), State(1, 1));
    assert!(p.is_goal(&State(5, 5)));
    assert!(!p.is_goal(&State(1, 1)));
}

#[test]
fn children_of_a_corner() {
    let p = Problem::create_basic(3).unwrap();
    assert_eq!(states(p.children(&State(1, 1))), vec![(2, 1), (2, 2), (1, 2)]);
    assert_eq!(states(p.children(&State(8, 8))), vec![(7, 8), (7, 7), (8, 7)]);
}

#[test]
fn children_of_an_inner_cell() {
    let p = Problem::create_basic(3).unwrap();
    assert_eq!(
        states(p.children(&State(4, 4))),
        vec![(3, 4), (3, 3), (3, 5), (5, 4), (5, 3), (5, 5), (4, 3), (4, 5)]
    );
}

#[test]
fn children_are_symmetric_inside_the_grid() {
    let p = Problem::create_basic(3).unwrap();
    for x in 1..=8 {
        for y in 1..=8 {
            for c in p.children(&State(x, y)) {
                assert!(c.0 >= 1 && c.0 <= 8 && c.1 >= 1 && c.1 <= 8);
                assert!(p.children(&c).iter().any(|b| **b == State(x, y)));
            }
        }
    }
}

#[test]
fn heuristic_sums_coordinate_distances() {
    let p = Problem::create(4, State(1, 1), State(10, 3)).unwrap();
    assert_eq!(p.heuristic(&State(1, 1)), 11);
    assert_eq!(p.heuristic(&State(12, 7)), 6);
    assert_eq!(p.heuristic(&State(10, 3)), 0);
    assert_eq!(p.cost(&State(5, 5)), 1);
}

#[test]
fn a_star_crosses_the_small_grid_diagonally() {
    let p = Problem::create_basic(3).unwrap();
    let mut search = AStar::new(&p);
    let goal = search.next_path().expect("a path");
    assert_eq!(*goal.state, State(3, 3));
    assert_eq!(goal.cost_from_root, 2);
    let mut path = vec![];
    let mut node = Some(goal.clone());
    while let Some(n) = node {
        path.push(*n.state);
        node = n.parent.clone();
    }
    path.reverse();
    assert_eq!(path, vec![State(1, 1), State(2, 2), State(3, 3)]);
    assert_eq!(search.total_nodes_closed(), 3);
    assert_eq!(search.total_nodes_opened(), 8);
}

#[test]
fn a_star_path_costs_match_their_length() {
    let p = Problem::create(4, State(2, 14), State(15, 1)).unwrap();
    let mut search = AStar::new(&p);
    let goal = search.next_path().expect("a path");
    assert_eq!(*goal.state, State(15, 1));
    let mut steps = 0;
    let mut node = goal.clone();
    while let Some(parent) = node.parent.clone() {
        assert!(p.children(&parent.state).iter().any(|c| **c == *node.state));
        assert_eq!(node.cost_from_root, parent.cost_from_root + 1);
        steps += 1;
        node = parent;
    }
    assert_eq!(*node.state, State(2, 14));
    assert_eq!(goal.cost_from_root, steps);
    assert!(goal.cost_from_root >= 13);
}

#[test]
fn a_star_on_the_large_grid() {
    let p = Problem::create_basic(8).unwrap();
    let mut search = AStar::new(&p);
    let goal = search.next_path().expect("a path");
    assert_eq!(*goal.state, State(8, 8));
    assert_eq!(goal.cost_from_root, 7);
}

#[test]
fn search_after_the_only_goal_exhausts() {
    let p = Problem::create(3, State(1, 1), State(1, 2)).unwrap();
    let mut search = AStar::new(&p);
    assert!(search.next_path().is_some());
    // the goal is closed and never expanded, so the search goes on elsewhere
    let mut more = 0;
    while search.next_path().is_some() {
        more += 1;
    }
    assert_eq!(more, 0);
    assert_eq!(search.total_nodes_opened(), 0);
    assert_eq!(search.total_nodes_closed(), 64);
}

#[test]
fn problem_estimator_gives_the_problem_heuristic() {
    let p = Problem::create(4, State(1, 1), State(10, 3)).unwrap();
    let mut estimator = ProblemEstimator { problem: &p };
    assert_eq!(estimator.estimate(&State(1, 1)), 11);
    assert_eq!(estimator.estimate(&State(12, 7)), 6);
    assert_eq!(estimator.estimate(&State(10, 3)), 0);
}
