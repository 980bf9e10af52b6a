use std::rc::Rc;
use astar_search::algorithms::hierarchical_a_star::{HAProblem as Hierarchy, HeuristicCache, HierarchicalAStar};
use astar_search::problems::grid_square::{AbstractState, HAProblem, InvalidProblem, Problem, State};
use astar_search::algorithms::a_star::{Estimator, Problem as SearchProblem};
use astar_search::algorithms::hierarchical_a_star::HierarchicalEstimator;

fn abs(level: u32, x: u32, y: u32) -> AbstractState {
    AbstractState { level, coords: (x, y) }
}

#[test]
fn hierarchy_creation() {
    match HAProblem::create(2, State(1, 1), State(2, 2)) {
        Err(InvalidProblem::InvalidLength(l)) => assert_eq!(l, 2),
        Ok(_) => panic!("accepted a grid of power 2"),
    }
    assert!(HAProblem::create(4, State(1, 1), State(9, 9)).is_ok());
    let h = HAProblem::create_from_problem(Problem::create_basic(5).unwrap()).unwrap();
    assert_eq!(h.original_problem().start_state(), State(1, 1));
}

#[test]
fn abstractions_halve_the_coordinates() {
    let h = HAProblem::create_basic(3).unwrap();
    assert_eq!(h.abstract_original(&State(7, 5)), abs(1, 3, 2));
    assert_eq!(h.further_abstract(&abs(1, 3, 2)), Some(abs(2, 1, 1)));
    assert_eq!(h.further_abstract(&abs(2, 1, 1)), Some(abs(3, 0, 0)));
    assert_eq!(h.further_abstract(&abs(3, 0, 0)), None);
}

#[test]
fn abstract_goals_per_level() {
    let h = HAProblem::create(5, State(1, 1), State(27, 13)).unwrap();
    assert!(h.is_abstract_goal(&abs(1, 13, 6)));
    assert!(h.is_abstract_goal(&abs(2, 6, 3)));
    assert!(h.is_abstract_goal(&abs(3, 3, 1)));
    assert!(h.is_abstract_goal(&abs(4, 1, 0)));
    assert!(h.is_abstract_goal(&abs(5, 0, 0)));
    assert!(!h.is_abstract_goal(&abs(6, 0, 0)));
    assert!(!h.is_abstract_goal(&abs(1, 13, 7)));
}

#[test]
fn abstract_children_stay_at_their_level() {
    let h = HAProblem::create_basic(3).unwrap();
    let children: Vec<AbstractState> = h.abstract_children(&abs(1, 1, 1)).iter().map(|s| **s).collect();
    assert_eq!(children, vec![abs(1, 2, 1), abs(1, 2, 2), abs(1, 1, 2)]);
    assert_eq!(h.abstract_cost(&abs(1, 1, 1)), 1);
}

#[test]
fn hierarchical_search_finds_the_goal() {
    let h = HAProblem::create_basic(3).unwrap();
    let mut search = HierarchicalAStar::new(&h);
    let goal = search.next_path().expect("a path");
    assert_eq!(*goal.state, State(3, 3));
    let mut node: Rc<_> = goal.clone();
    let mut steps = 0;
    while let Some(parent) = node.parent.clone() {
        assert!(h.original_problem().children(&parent.state).iter().any(|c| **c == *node.state));
        steps += 1;
        node = parent;
    }
    assert_eq!(*node.state, State(1, 1));
    assert_eq!(goal.cost_from_root, steps);
    assert!(search.total_original_nodes_closed() >= 3);
    assert!(search.total_original_nodes_opened() > 0);
}

#[test]
fn hierarchical_search_on_a_larger_grid() {
    let h = HAProblem::create(4, State(2, 3), State(14, 11)).unwrap();
    let mut search = HierarchicalAStar::new(&h);
    let goal = search.next_path().expect("a path");
    assert_eq!(*goal.state, State(14, 11));
    assert!(goal.cost_from_root >= 12);
}

#[test]
fn cache_keeps_one_value_per_state() {
    let mut cache: HeuristicCache<AbstractState> = HeuristicCache::new();
    assert_eq!(cache.get(&abs(1, 2, 3)), None);
    cache.insert(Rc::new(abs(1, 2, 3)), 7);
    cache.insert(Rc::new(abs(2, 2, 3)), 4);
    assert_eq!(cache.get(&abs(1, 2, 3)), Some(7));
    cache.insert(Rc::new(abs(1, 2, 3)), 9);
    assert_eq!(cache.get(&abs(1, 2, 3)), Some(9));
    assert_eq!(cache.get(&abs(2, 2, 3)), Some(4));
    assert_eq!(cache.get(&abs(3, 2, 3)), None);
}

#[test]
fn estimator_answers_from_the_cache_first() {
    let h = HAProblem::create_basic(3).unwrap();
    let mut cache: HeuristicCache<AbstractState> = HeuristicCache::new();
    cache.insert(Rc::new(abs(1, 0, 0)), 5);
    let mut estimator = HierarchicalEstimator { problem: &h, cache };
    assert_eq!(estimator.estimate(&State(1, 1)), 5);
    assert_eq!(estimator.cache.get(&abs(1, 0, 0)), Some(5));
    assert_eq!(estimator.cache.get(&abs(1, 1, 1)), None);
}

#[test]
fn estimator_searches_and_caches_an_uncached_abstraction() {
    let h = HAProblem::create_basic(3).unwrap();
    let mut estimator = HierarchicalEstimator { problem: &h, cache: HeuristicCache::new() };
    let r = estimator.estimate(&State(1, 1));
    assert!(r > 0 && r < u32::MAX);
    assert_eq!(estimator.cache.get(&abs(1, 0, 0)), Some(r));
    assert_eq!(estimator.estimate(&State(1, 1)), r);
}

#[test]
fn estimate_of_a_state_whose_abstraction_is_a_goal_is_zero() {
    let h = HAProblem::create(4, State(2, 2), State(3, 3)).unwrap();
    let mut estimator = HierarchicalEstimator { problem: &h, cache: HeuristicCache::new() };
    assert_eq!(estimator.estimate(&State(2, 2)), 0);
    assert_eq!(estimator.cache.get(&abs(1, 1, 1)), None);
}

#[test]
fn a_search_returns_each_goal_once() {
    let h = HAProblem::create_basic(3).unwrap();
    let mut search = HierarchicalAStar::new(&h);
    let first = search.next_path().expect("a path");
    assert_eq!(*first.state, State(3, 3));
    assert!(search.next_path().is_none());
}
