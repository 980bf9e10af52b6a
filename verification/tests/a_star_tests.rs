use std::rc::Rc;
use astar_search::algorithms::a_star::{
    create_first_node, next_path, AStarSets, Node, ProblemEstimator, ProblemGraph, Problem as SearchProblem,
};
use astar_search::algorithms::open_list::sort_open;
use astar_search::problems::grid_square::{Problem, State};

fn node(x: u32, estimate: u32) -> Rc<Node<State>> {
    Rc::new(Node { state: Rc::new(State(x, 0)), parent: None, cost_from_root: 0, estimated_total_cost: estimate })
}

#[test]
fn first_node_has_no_parent_and_no_cost() {
    let n = create_first_node(State(4, 5), 9);
    assert_eq!(*n.state, State(4, 5));
    assert!(n.parent.is_none());
    assert_eq!(n.cost_from_root, 0);
    assert_eq!(n.estimated_total_cost, 9);
}

#[test]
fn sets_start_empty_and_take_nodes() {
    let mut sets: AStarSets<State> = AStarSets::new();
    assert!(sets.open.is_empty() && sets.closed.is_empty());
    sets.create_and_add_first_node(State(1, 2), 3);
    sets.add_open_node(create_first_node(State(2, 2), 1));
    assert_eq!(sets.open.len(), 2);
    assert_eq!(*sets.open[0].state, State(1, 2));
    assert_eq!(sets.open[0].estimated_total_cost, 3);
    assert_eq!(*sets.open[1].state, State(2, 2));
    assert!(sets.closed.is_empty());
}

#[test]
fn open_list_sorts_down_and_keeps_ties_in_order() {
    let mut open = vec![node(1, 5), node(2, 9), node(3, 5), node(4, 1), node(5, 9), node(6, 5)];
    sort_open(&mut open);
    let order: Vec<(u32, u32)> = open.iter().map(|n| (n.state.0, n.estimated_total_cost)).collect();
    assert_eq!(order, vec![(2, 9), (5, 9), (1, 5), (3, 5), (6, 5), (4, 1)]);
}

#[test]
fn sorting_an_empty_or_sorted_list_changes_nothing() {
    let mut empty: Vec<Rc<Node<State>>> = vec![];
    sort_open(&mut empty);
    assert!(empty.is_empty());
    let mut sorted = vec![node(1, 7), node(2, 7), node(3, 2)];
    sort_open(&mut sorted);
    let order: Vec<u32> = sorted.iter().map(|n| n.state.0).collect();
    assert_eq!(order, vec![1, 2, 3]);
}

#[test]
fn next_path_on_sets_of_a_problem() {
    let p = Problem::create_basic(3).unwrap();
    let mut sets = AStarSets::new();
    let start = p.start_state();
    let h = p.heuristic(&start);
    sets.create_and_add_first_node(start, h);
    let graph = ProblemGraph { problem: &p };
    let mut estimator = ProblemEstimator { problem: &p };
    let goal = next_path(&mut sets, &graph, &mut estimator).expect("a path");
    assert_eq!(*goal.state, State(3, 3));
    assert_eq!(goal.cost_from_root, 2);
    assert!(Rc::ptr_eq(sets.closed.last().unwrap(), &goal));
    // the open list stays ordered by decreasing estimate
    for w in sets.open.windows(2) {
        assert!(w[0].estimated_total_cost >= w[1].estimated_total_cost);
    }
}

#[test]
fn next_path_on_empty_sets_finds_nothing() {
    let p = Problem::create_basic(3).unwrap();
    let mut sets: AStarSets<State> = AStarSets::new();
    let graph = ProblemGraph { problem: &p };
    let mut estimator = ProblemEstimator { problem: &p };
    assert!(next_path(&mut sets, &graph, &mut estimator).is_none());
    assert!(sets.closed.is_empty());
}

#[test]
fn nodes_with_the_same_state_are_equal() {
    let a = Node { state: Rc::new(State(2, 3)), parent: None, cost_from_root: 0, estimated_total_cost: 4 };
    let b = Node { state: Rc::new(State(2, 3)), parent: Some(node(1, 1)), cost_from_root: 5, estimated_total_cost: 9 };
    let c = Node { state: Rc::new(State(3, 2)), parent: None, cost_from_root: 0, estimated_total_cost: 4 };
    assert!(a == b);
    assert!(a != c);
}

#[test]
fn next_path_from_a_goal_closes_only_the_root() {
    let p = Problem::create(4, State(3, 3), State(3, 3)).unwrap();
    let mut sets = AStarSets::new();
    sets.create_and_add_first_node(State(3, 3), 0);
    let graph = ProblemGraph { problem: &p };
    let mut estimator = ProblemEstimator { problem: &p };
    let goal = next_path(&mut sets, &graph, &mut estimator).expect("the start");
    assert_eq!(*goal.state, State(3, 3));
    assert!(goal.parent.is_none());
    assert_eq!(goal.cost_from_root, 0);
    assert!(sets.open.is_empty());
    assert_eq!(sets.closed.len(), 1);
}

#[test]
fn estimates_add_the_heuristic_to_the_cost() {
    let p = Problem::create_basic(3).unwrap();
    let mut sets = AStarSets::new();
    let start = p.start_state();
    let h = p.heuristic(&start);
    sets.create_and_add_first_node(start, h);
    let graph = ProblemGraph { problem: &p };
    let mut estimator = ProblemEstimator { problem: &p };
    next_path(&mut sets, &graph, &mut estimator).expect("a path");
    for n in sets.open.iter().chain(sets.closed.iter()) {
        assert_eq!(n.estimated_total_cost, n.cost_from_root + p.heuristic(&n.state));
    }
}
