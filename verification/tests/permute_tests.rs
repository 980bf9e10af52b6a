use astar_search::algorithms::a_star::{AStar, Problem as SearchProblem};
use astar_search::problems::permute::{Problem, State};

#[test]
fn a_sorted_start_is_a_goal() {
    let p = Problem::create(vec![1, 2, 2, 5]);
    let start = p.start_state();
    assert!(p.is_goal(&start));
    let mut search = AStar::new(&p);
    let goal = search.next_path().expect("the start");
    assert_eq!(goal.cost_from_root, 0);
    assert!(goal.parent.is_none());
    assert_eq!(*goal.state, State::new(vec![1, 2, 2, 5]));
}

#[test]
fn an_unsorted_start_has_no_moves() {
    let p = Problem::create(vec![3, 1, 2]);
    let start = p.start_state();
    assert!(!p.is_goal(&start));
    assert!(p.children(&start).is_empty());
    assert!(SearchProblem::children(&p, &start).is_empty());
    let mut search = AStar::new(&p);
    assert!(search.next_path().is_none());
    assert_eq!(search.total_nodes_closed(), 1);
}

#[test]
fn empty_and_single_combinations_are_sorted() {
    let p = Problem::create(vec![]);
    assert!(p.is_goal(&p.start_state()));
    let q = Problem::create(vec![7]);
    assert!(q.is_goal(&q.start_state()));
    assert_eq!(p.cost(&p.start_state()), 1);
    assert_eq!(q.heuristic(&q.start_state()), 0);
}
