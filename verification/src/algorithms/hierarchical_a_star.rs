//! Hierarchical A*: the heuristic of a state is the cost of an abstract search
//! from its abstraction to an abstract goal, itself guided by the same
//! heuristic one level of abstraction up; found costs are cached.
use vstd::prelude::*;
use std::rc::Rc;
use core::marker::PhantomData;
use crate::algorithms::a_star::{
    next_path,
    State, Problem, SearchGraph, Estimator, ProblemGraph, Node, AStarSets, rc_values, rc_clone,
    node_ok, root_state, path_states, is_path, path_cost, first_node, lemma_node_path,
    search_progress, closed_non_goals, round_ok, select_node, add_child, finish_round,
    lemma_closed_bounded, lemma_goal_round, lemma_progress_trans, lemma_exhausted_search_no_goal,
    search_outcome, lemma_search_outcome, lemma_path_split,
    lemma_path_cost_saturates, chain_of, chain_closed, picked, path_sum, estimated_by, fresh, consistent,
    least_cost_goal, closed_optimal, frontier_covered, child_covered, lemma_closed_optimal_same, lemma_cover_kept,
    lemma_estimated_select, lemma_select_optimal, ZeroEstimator, lemma_zero_consistent, sat_add, chain_estimated,
    lemma_fresh_estimated,
};

verus! {

/// A problem with a hierarchy of abstractions, implemented by its users.
///
/// Abstract states lie in a finite space; each further abstraction lowers a
/// rank, and abstract children never raise it, which bounds the recursion.
pub trait HAProblem<S: State, SS: State> {
    type Original: Problem<S>;

    spec fn well_posed(&self) -> bool;

    spec fn spec_original_problem(&self) -> &Self::Original;

    spec fn spec_abstract_original(&self, state: S) -> SS;

    spec fn spec_further_abstract(&self, state: SS) -> Option<SS>;

    spec fn spec_abstract_children(&self, state: SS) -> Seq<SS>;

    spec fn spec_abstract_cost(&self, state: SS) -> u32;

    spec fn spec_is_abstract_goal(&self, state: SS) -> bool;

    spec fn in_abstract_space(&self, state: SS) -> bool;

    /// The abstract states that `further_abstract` and `is_abstract_goal` take;
    /// they include the abstract space. (`abstract_children` and `abstract_cost`
    /// take any abstract state.)
    spec fn in_abstract_domain(&self, state: SS) -> bool;

    spec fn abstract_index(&self, state: SS) -> nat;

    spec fn abstract_space_size(&self) -> nat;

    spec fn abstraction_rank(&self, state: SS) -> nat;

    proof fn lemma_abstraction(&self)
        requires
            self.well_posed(),
        ensures
            self.spec_original_problem().well_posed(),
            forall|s: S|
                #[trigger] self.spec_original_problem().in_state_space(s) ==> self.in_abstract_space(
                    self.spec_abstract_original(s),
                ),
            forall|a: SS| #[trigger] self.in_abstract_space(a) ==> self.abstract_index(a) < self.abstract_space_size(),
            forall|a: SS| #[trigger] self.in_abstract_space(a) ==> self.in_abstract_domain(a),
            forall|a: SS, b: SS|
                self.in_abstract_space(a) && self.in_abstract_space(b) && #[trigger] self.abstract_index(a)
                    == #[trigger] self.abstract_index(b) ==> a == b,
            forall|a: SS|
                self.in_abstract_space(a) && #[trigger] self.spec_further_abstract(a) is Some ==> {
                    &&& self.in_abstract_space(self.spec_further_abstract(a)->0)
                    &&& self.abstraction_rank(self.spec_further_abstract(a)->0) < self.abstraction_rank(a)
                },
            forall|a: SS, i: int|
                self.in_abstract_space(a) && 0 <= i < self.spec_abstract_children(a).len() ==> {
                    &&& self.in_abstract_space(#[trigger] self.spec_abstract_children(a)[i])
                    &&& self.abstraction_rank(self.spec_abstract_children(a)[i]) <= self.abstraction_rank(a)
                },
    ;

    fn original_problem(&self) -> (r: &Self::Original)
        ensures
            r == self.spec_original_problem(),
    ;

    fn abstract_original(&self, state: &S) -> (r: SS)
        requires
            self.well_posed(),
            self.spec_original_problem().in_state_space(*state),
        ensures
            r == self.spec_abstract_original(*state),
    ;

    fn further_abstract(&self, state: &SS) -> (r: Option<SS>)
        requires
            self.well_posed(),
            self.in_abstract_domain(*state),
        ensures
            r == self.spec_further_abstract(*state),
    ;

    fn abstract_children(&self, state: &SS) -> (r: Vec<Rc<SS>>)
        requires
            self.well_posed(),
        ensures
            rc_values(r@) == self.spec_abstract_children(*state),
    ;

    fn abstract_cost(&self, state: &SS) -> (r: u32)
        requires
            self.well_posed(),
        ensures
            r == self.spec_abstract_cost(*state),
    ;

    fn is_abstract_goal(&self, state: &SS) -> (r: bool)
        requires
            self.well_posed(),
            self.in_abstract_domain(*state),
        ensures
            r == self.spec_is_abstract_goal(*state),
    ;
}

/// The abstract graph of an `HAProblem`, restricted to the states whose rank
/// is at most `rank_bound`.
pub struct AbstractGraph<'a, S, P> {
    pub problem: &'a P,
    pub rank_bound: Ghost<nat>,
    pub original: PhantomData<S>,
}

impl<'a, S: State, SS: State, P: HAProblem<S, SS>> SearchGraph<SS> for AbstractGraph<'a, S, P> {
    open spec fn graph_ready(&self) -> bool {
        self.problem.well_posed()
    }

    open spec fn graph_children(&self, state: SS) -> Seq<SS> {
        self.problem.spec_abstract_children(state)
    }

    open spec fn graph_cost(&self, state: SS) -> u32 {
        self.problem.spec_abstract_cost(state)
    }

    open spec fn graph_is_goal(&self, state: SS) -> bool {
        self.problem.spec_is_abstract_goal(state)
    }

    open spec fn in_graph_space(&self, state: SS) -> bool {
        self.problem.in_abstract_space(state) && self.problem.abstraction_rank(state) <= self.rank_bound@
    }

    open spec fn graph_index(&self, state: SS) -> nat {
        self.problem.abstract_index(state)
    }

    open spec fn graph_size(&self) -> nat {
        self.problem.abstract_space_size()
    }

    proof fn lemma_graph_space(&self) {
        self.problem.lemma_abstraction();
        assert forall|s: SS, i: int|
            self.in_graph_space(s) && 0 <= i < self.graph_children(s).len() implies self.in_graph_space(
            #[trigger] self.graph_children(s)[i],
        ) by {
            assert(self.problem.in_abstract_space(self.problem.spec_abstract_children(s)[i]));
        }
    }

    fn expand(&self, state: &SS) -> (r: Vec<Rc<SS>>) {
        proof {
            self.problem.lemma_abstraction();
        }
        self.problem.abstract_children(state)
    }

    fn step_cost(&self, state: &SS) -> (r: u32) {
        proof {
            self.problem.lemma_abstraction();
        }
        self.problem.abstract_cost(state)
    }

    fn reached_goal(&self, state: &SS) -> (r: bool) {
        proof {
            self.problem.lemma_abstraction();
        }
        self.problem.is_abstract_goal(state)
    }
}

/// The abstract graph for searches that start from `start`.
pub open spec fn graph_from<'a, S: State, SS: State, P: HAProblem<S, SS>>(
    problem: &'a P,
    start: SS,
) -> AbstractGraph<'a, S, P> {
    AbstractGraph { problem, rank_bound: Ghost(problem.abstraction_rank(start)), original: PhantomData }
}

/// Costs found from abstract states to an abstract goal, at most one per state.
pub struct HeuristicCache<SS: State> {
    entries: Vec<(Rc<SS>, u32)>,
}

impl<SS: State> HeuristicCache<SS> {
    pub closed spec fn keys(&self) -> Seq<SS> {
        self.entries@.map_values(|e: (Rc<SS>, u32)| *e.0)
    }

    /// No state has two entries.
    pub closed spec fn wf(&self) -> bool {
        self.keys().no_duplicates()
    }

    proof fn lemma_entry(&self, i: int)
        requires
            self.wf(),
            0 <= i < self.entries@.len(),
        ensures
            self@.dom().contains(self.keys()[i]),
            self@[self.keys()[i]] == self.entries@[i].1,
    {
        let k = self.keys()[i];
        assert(self.keys().contains(k));
        let j = self.keys().index_of(k);
        assert(self.keys()[j] == k);
    }

    pub fn new() -> (r: Self)
        ensures
            r.wf(),
            r@ == Map::<SS, u32>::empty(),
    {
        let r = HeuristicCache { entries: Vec::new() };
        assert(r@ =~= Map::<SS, u32>::empty());
        r
    }

    /// The cost cached for `key`, if any.
    pub fn get(&self, key: &SS) -> (r: Option<u32>)
        requires
            self.wf(),
        ensures
            r == (if self@.dom().contains(*key) { Some(self@[*key]) } else { None::<u32> }),
    {
        let mut i: usize = 0;
        while i < self.entries.len()
            invariant
                self.wf(),
                i <= self.entries@.len(),
                forall|j: int| 0 <= j < i ==> self.keys()[j] != *key,
            decreases self.entries@.len() - i,
        {
            if self.entries[i].0.same_state(key) {
                proof {
                    assert(self.keys()[i as int] == *key);
                    self.lemma_entry(i as int);
                }
                return Some(self.entries[i].1);
            }
            i = i + 1;
        }
        proof {
            if self.keys().contains(*key) {
                let j = choose|j: int| 0 <= j < self.keys().len() && self.keys()[j] == *key;
            }
        }
        None
    }

    /// Caches `value` for `key`, replacing an earlier value.
    pub fn insert(&mut self, key: Rc<SS>, value: u32)
        requires
            old(self).wf(),
        ensures
            final(self).wf(),
            final(self)@ == old(self)@.insert(*key, value),
    {
        let ghost old_keys = self.keys();
        let mut i: usize = 0;
        while i < self.entries.len()
            invariant
                self.wf(),
                self.keys() == old_keys,
                *self == *old(self),
                i <= self.entries@.len(),
                forall|j: int| 0 <= j < i ==> self.keys()[j] != *key,
            decreases self.entries@.len() - i,
        {
            if self.entries[i].0.same_state(&key) {
                let ghost idx = i as int;
                proof {
                    assert(self.keys()[idx] == *key);
                }
                self.entries.set(i, (key, value));
                proof {
                    assert(self.keys() =~= old_keys.update(idx, old_keys[idx]));
                    assert(self.keys() =~= old_keys);
                    assert forall|k: SS| #[trigger] self@.dom().contains(k) <==> old(self)@.insert(*key, value).dom().contains(k) by {
                    }
                    assert forall|k: SS| #[trigger] self@.dom().contains(k) implies self@[k] == old(self)@.insert(*key, value)[k] by {
                        let j = self.keys().index_of(k);
                        assert(self.keys()[j] == k);
                        self.lemma_entry(j);
                        old(self).lemma_entry(j);
                    }
                    assert(self@ =~= old(self)@.insert(*key, value));
                }
                return;
            }
            i = i + 1;
        }
        self.entries.push((key, value));
        proof {
            let n = old_keys.len();
            assert(self.keys() =~= old_keys.push(*key));
            assert(!old_keys.contains(*key));
            assert(self.keys().no_duplicates()) by {
                assert forall|a: int, b: int| 0 <= a < self.keys().len() && 0 <= b < self.keys().len() && a != b implies self.keys()[a] != self.keys()[b] by {
                    if a == n {
                        assert(old_keys[b] == self.keys()[b]);
                    } else if b == n {
                        assert(old_keys[a] == self.keys()[a]);
                    }
                }
            }
            assert forall|k: SS| #[trigger] self@.dom().contains(k) <==> old(self)@.insert(*key, value).dom().contains(k) by {
                if self.keys().contains(k) && k != *key {
                    let j = choose|j: int| 0 <= j < self.keys().len() && self.keys()[j] == k;
                    assert(old_keys[j] == k);
                }
                if old_keys.contains(k) {
                    let j = choose|j: int| 0 <= j < old_keys.len() && old_keys[j] == k;
                    assert(self.keys()[j] == k);
                }
                assert(self.keys()[n as int] == *key);
            }
            assert forall|k: SS| #[trigger] self@.dom().contains(k) implies self@[k] == old(self)@.insert(*key, value)[k] by {
                let j = self.keys().index_of(k);
                assert(self.keys()[j] == k);
                self.lemma_entry(j);
                if j < n {
                    old(self).lemma_entry(j);
                    assert(old_keys[j] == k);
                }
            }
            assert(self@ =~= old(self)@.insert(*key, value));
        }
    }
}

impl<SS: State> View for HeuristicCache<SS> {
    type V = Map<SS, u32>;

    closed spec fn view(&self) -> Map<SS, u32> {
        Map::new(|k: SS| self.keys().contains(k), |k: SS| self.entries@[self.keys().index_of(k)].1)
    }
}

/// Every proper ancestor of `node` costs at most `total`.
pub open spec fn ancestors_within<SS: State>(node: Node<SS>, total: u32) -> bool
    decreases node,
{
    match node.parent {
        None => true,
        Some(p) => p.cost_from_root <= total && ancestors_within(*p, total),
    }
}

proof fn lemma_ancestors_within<SS: State, G: SearchGraph<SS>>(g: &G, node: Rc<Node<SS>>, total: u32)
    requires
        node_ok(g, *node),
        node.cost_from_root <= total,
    ensures
        ancestors_within(*node, total),
    decreases node,
{
    match node.parent {
        None => {},
        Some(p) => {
            lemma_ancestors_within(g, p, total);
        },
    }
}

/// The cache after recording, for every proper ancestor of `node` from the
/// nearest up, the cost from it to the end of the chain: `total` less its cost.
pub open spec fn cached_along<SS: State>(m: Map<SS, u32>, node: Node<SS>, total: u32) -> Map<SS, u32>
    decreases node,
{
    match node.parent {
        None => m,
        Some(p) => cached_along(m.insert(*p.state, (total - p.cost_from_root) as u32), *p, total),
    }
}

proof fn lemma_cached_along_keeps<SS: State>(node: Rc<Node<SS>>, total: u32)
    ensures
        forall|m: Map<SS, u32>, k: SS|
            #[trigger] m.dom().contains(k) ==> #[trigger] cached_along(m, *node, total).dom().contains(k),
    decreases node,
{
    match node.parent {
        None => {},
        Some(p) => {
            lemma_cached_along_keeps(p, total);
            assert forall|m: Map<SS, u32>, k: SS|
                #[trigger] m.dom().contains(k) implies #[trigger] cached_along(m, *node, total).dom().contains(k) by {
                let m2 = m.insert(*p.state, (total - p.cost_from_root) as u32);
                assert(m2.dom().contains(k));
                assert(cached_along(m, *node, total) == cached_along(m2, *p, total));
                assert(cached_along(m2, *p, total).dom().contains(k));
            }
        },
    }
}

/// Caches, for each ancestor of `goal_node`, its cost to the goal; returns the
/// goal's cost from the root.
fn cache_path_states<SS: State>(cache: &mut HeuristicCache<SS>, goal_node: Rc<Node<SS>>) -> (r: u32)
    requires
        old(cache).wf(),
        ancestors_within(*goal_node, goal_node.cost_from_root),
    ensures
        final(cache).wf(),
        r == goal_node.cost_from_root,
        final(cache)@ == cached_along(old(cache)@, *goal_node, goal_node.cost_from_root),
{
    let path_cost = goal_node.cost_from_root;
    let mut current_node = rc_clone(&goal_node);
    loop
        invariant
            cache.wf(),
            ancestors_within(*current_node, path_cost),
            path_cost == goal_node.cost_from_root,
            cached_along(cache@, *current_node, path_cost) == cached_along(old(cache)@, *goal_node, path_cost),
        decreases path_states(*current_node).len(),
    {
        match &current_node.parent {
            None => {
                return path_cost;
            },
            Some(parent_node) => {
                let parent_cost_to_goal = path_cost - parent_node.cost_from_root;
                cache.insert(rc_clone(&parent_node.state), parent_cost_to_goal);
                let next = rc_clone(parent_node);
                proof {
                    assert(path_states(*current_node).len() == path_states(*next).len() + 1);
                }
                current_node = next;
            },
        }
    }
}

/// The abstract graph of `problem`, without a bound on ranks (paths and their
/// costs do not depend on the bound).
pub open spec fn any_rank_graph<'a, S: State, SS: State, P: HAProblem<S, SS>>(problem: &'a P) -> AbstractGraph<'a, S, P> {
    AbstractGraph { problem, rank_bound: Ghost(0), original: PhantomData }
}

/// `path` leads along the steps of `g` from `start` to an abstract goal and
/// visits no state twice.
pub open spec fn goal_route<'a, S: State, SS: State, P: HAProblem<S, SS>>(
    problem: &P,
    g: &AbstractGraph<'a, S, P>,
    start: SS,
    path: Seq<SS>,
) -> bool {
    &&& is_path(g, path)
    &&& path[0] == start
    &&& problem.spec_is_abstract_goal(path.last())
    &&& path.no_duplicates()
}

/// Some path of the abstract graph that visits no state twice costs
/// `u32::MAX` or more, so that sums of costs may not fit in a `u32`.
pub open spec fn may_overflow<S: State, SS: State, P: HAProblem<S, SS>>(problem: &P) -> bool {
    let g = any_rank_graph::<S, SS, P>(problem);
    exists|path: Seq<SS>|
        #![trigger is_path(&g, path)]
        is_path(&g, path) && path.no_duplicates() && path_sum(&g, path) >= u32::MAX
}

/// `v` is the exact cost of a route from `state` to an abstract goal; where
/// route costs may not fit in a `u32`, it may be less than that cost.
pub open spec fn route_value<S: State, SS: State, P: HAProblem<S, SS>>(problem: &P, state: SS, v: u32) -> bool {
    let g = any_rank_graph::<S, SS, P>(problem);
    exists|path: Seq<SS>|
        #![trigger goal_route::<S, SS, P>(problem, &g, state, path)]
        goal_route::<S, SS, P>(problem, &g, state, path) && (path_sum(&g, path) == v || (may_overflow::<
            S,
            SS,
            P,
        >(problem) && v <= path_sum(&g, path)))
}

/// No path of `g` from `start` ends at an abstract goal.
pub open spec fn no_goal_from<'a, S: State, SS: State, P: HAProblem<S, SS>>(
    problem: &P,
    g: &AbstractGraph<'a, S, P>,
    start: SS,
) -> bool {
    forall|path: Seq<SS>|
        #![trigger is_path(g, path)]
        is_path(g, path) && path[0] == start ==> !problem.spec_is_abstract_goal(path.last())
}

/// Every cached cost is that of a route from its state to an abstract goal
/// (see `route_value`).
pub open spec fn cache_sound<S: State, SS: State, P: HAProblem<S, SS>>(problem: &P, m: Map<SS, u32>) -> bool {
    forall|k: SS| #[trigger] m.dom().contains(k) ==> route_value::<S, SS, P>(problem, k, m[k])
}

/// A hierarchical estimate of the abstract state `a`: the cost of a route from
/// `a` to an abstract goal (see `route_value`), or `u32::MAX` where no goal is
/// reachable from `a`.
pub open spec fn hierarchical_value<S: State, SS: State, P: HAProblem<S, SS>>(problem: &P, a: SS, h: u32) -> bool {
    ||| route_value::<S, SS, P>(problem, a, h)
    ||| h == u32::MAX && no_goal_from::<S, SS, P>(problem, &any_rank_graph::<S, SS, P>(problem), a)
}

/// Two abstract graphs of one problem have the same paths at the same costs.
proof fn lemma_graphs_agree<'a, 'b, S: State, SS: State, P: HAProblem<S, SS>>(
    g1: &AbstractGraph<'a, S, P>,
    g2: &AbstractGraph<'b, S, P>,
    path: Seq<SS>,
)
    requires
        *g1.problem == *g2.problem,
    ensures
        is_path(g1, path) == is_path(g2, path),
        path_cost(g1, path) == path_cost(g2, path),
        path_sum(g1, path) == path_sum(g2, path),
    decreases path.len(),
{
    if path.len() > 1 {
        lemma_graphs_agree(g1, g2, path.drop_last());
    }
}

/// Recording the costs to the goal along a chain of parents keeps the cache sound.
proof fn lemma_cached_along_sound<'a, S: State, SS: State, P: HAProblem<S, SS>>(
    problem: &P,
    g: &AbstractGraph<'a, S, P>,
    goal: Rc<Node<SS>>,
    n: Rc<Node<SS>>,
)
    requires
        *g.problem == *problem,
        node_ok(g, *goal),
        node_ok(g, *n),
        problem.spec_is_abstract_goal(*goal.state),
        path_states(*goal).no_duplicates(),
        path_states(*n).is_prefix_of(path_states(*goal)),
    ensures
        forall|m: Map<SS, u32>|
            #[trigger] cache_sound::<S, SS, P>(problem, m) ==> cache_sound::<S, SS, P>(
                problem,
                cached_along(m, *n, goal.cost_from_root),
            ),
    decreases n,
{
    match n.parent {
        None => {},
        Some(p) => {
            let j = chain_of(&p).len() - 1;
            assert(chain_of(&n).drop_last() =~= chain_of(&p));
            assert(chain_of(&p).is_prefix_of(chain_of(&goal))) by {
                assert forall|i: int| 0 <= i < chain_of(&p).len() implies chain_of(&p)[i] == chain_of(&goal)[i] by {
                    assert(chain_of(&p)[i] == chain_of(&n)[i]);
                }
            }
            lemma_node_path(g, goal);
            lemma_node_path(g, p);
            assert(chain_of(&p) =~= chain_of(&goal).subrange(0, j + 1));
            lemma_path_split(g, chain_of(&goal), j);
            lemma_path_cost_saturates(g, chain_of(&goal));
            lemma_path_cost_saturates(g, chain_of(&p));
            let chain = chain_of(&goal);
            let suffix = chain.subrange(j, chain.len() as int);
            assert(suffix[0] == *p.state);
            assert(suffix.last() == *goal.state);
            assert(suffix.no_duplicates()) by {
                assert forall|a: int, b: int| 0 <= a < suffix.len() && 0 <= b < suffix.len() && a != b implies suffix[a]
                    != suffix[b] by {
                    assert(suffix[a] == chain[j + a]);
                    assert(suffix[b] == chain[j + b]);
                }
            }
            let any = any_rank_graph::<S, SS, P>(problem);
            lemma_graphs_agree(g, &any, suffix);
            lemma_graphs_agree(g, &any, chain);
            let v = (goal.cost_from_root - p.cost_from_root) as u32;
            assert(goal_route::<S, SS, P>(problem, &any, *p.state, suffix));
            if path_sum(g, chain) <= u32::MAX {
                assert(path_sum(&any, suffix) == v);
            } else {
                assert(is_path(&any, chain) && chain.no_duplicates() && path_sum(&any, chain) >= u32::MAX);
                assert(may_overflow::<S, SS, P>(problem));
                assert(v <= path_sum(&any, suffix));
            }
            assert(route_value::<S, SS, P>(problem, *p.state, v));
            lemma_cached_along_sound(problem, g, goal, p);
            assert forall|m: Map<SS, u32>| #[trigger] cache_sound::<S, SS, P>(problem, m) implies cache_sound::<S, SS, P>(
                problem,
                cached_along(m, *n, goal.cost_from_root),
            ) by {
                let m2 = m.insert(*p.state, (goal.cost_from_root - p.cost_from_root) as u32);
                assert forall|k: SS| #[trigger] m2.dom().contains(k) implies route_value::<S, SS, P>(
                    problem,
                    k,
                    m2[k],
                ) by {
                    if k != *p.state {
                        assert(m.dom().contains(k));
                    }
                }
                assert(cache_sound::<S, SS, P>(problem, m2));
                assert(cached_along(m, *n, goal.cost_from_root) == cached_along(m2, *p, goal.cost_from_root));
            }
        },
    }
}

/// A search from `start` found a route to a goal (visiting no state twice)
/// whose cost, saturating at `u32::MAX`, is `r`; or found that no goal is
/// reachable and `r` is `u32::MAX`.
pub open spec fn found_or_unreachable<S: State, SS: State, P: HAProblem<S, SS>>(
    problem: &P,
    start: SS,
    r: u32,
) -> bool {
    let g = graph_from::<S, SS, P>(problem, start);
    ||| exists|path: Seq<SS>|
        #![trigger goal_route::<S, SS, P>(problem, &g, start, path)]
        goal_route::<S, SS, P>(problem, &g, start, path) && path_cost(&g, path) == r
    ||| r == u32::MAX && no_goal_from::<S, SS, P>(problem, &g, start)
}

/// `m` with the state of `p` recorded at `total` less `p`'s cost.
spec fn recorded<SS: State>(m: Map<SS, u32>, p: &Rc<Node<SS>>, total: u32) -> Map<SS, u32> {
    m.insert(*p.state, (total - p.cost_from_root) as u32)
}

/// `a` and `b` agree on every state of rank `bound` or more: the same states are
/// cached, with the same costs.
pub open spec fn agree_from<S: State, SS: State, P: HAProblem<S, SS>>(
    problem: &P,
    a: Map<SS, u32>,
    b: Map<SS, u32>,
    bound: nat,
) -> bool {
    forall|k: SS|
        #![trigger a.dom().contains(k)]
        #![trigger b.dom().contains(k)]
        problem.abstraction_rank(k) >= bound ==> (a.dom().contains(k) == b.dom().contains(k)) && (a.dom().contains(k)
            ==> a[k] == b[k])
}

proof fn lemma_agree_trans<S: State, SS: State, P: HAProblem<S, SS>>(
    problem: &P,
    a: Map<SS, u32>,
    b: Map<SS, u32>,
    c: Map<SS, u32>,
    lo1: nat,
    lo2: nat,
    bound: nat,
)
    requires
        agree_from::<S, SS, P>(problem, a, b, lo1),
        agree_from::<S, SS, P>(problem, b, c, lo2),
        lo1 <= bound,
        lo2 <= bound,
    ensures
        agree_from::<S, SS, P>(problem, a, c, bound),
{
    assert forall|k: SS| problem.abstraction_rank(k) >= bound implies (a.dom().contains(k) == c.dom().contains(k)) && (
    a.dom().contains(k) ==> a[k] == c[k]) by {
        if a.dom().contains(k) || b.dom().contains(k) || c.dom().contains(k) {
            assert(a.dom().contains(k) == b.dom().contains(k));
            assert(b.dom().contains(k) == c.dom().contains(k));
        }
    }
}

/// Recording along a chain changes nothing outside its proper ancestors' states.
proof fn lemma_cached_along_outside<SS: State>(m: Map<SS, u32>, node: Rc<Node<SS>>, total: u32, k: SS)
    requires
        !path_states(*node).drop_last().contains(k),
    ensures
        cached_along(m, *node, total).dom().contains(k) == m.dom().contains(k),
        m.dom().contains(k) ==> cached_along(m, *node, total)[k] == m[k],
    decreases node,
{
    match node.parent {
        None => {},
        Some(p) => {
            let m2 = recorded(m, &p, total);
            assert(cached_along(m, *node, total) == cached_along(m2, *p, total));
            assert(path_states(*node).drop_last() =~= path_states(*p));
            assert(path_states(*p).last() == *p.state) by {
                lemma_last_state(p);
            }
            assert(k != *p.state) by {
                if k == *p.state {
                    assert(path_states(*p)[path_states(*p).len() - 1] == k);
                }
            }
            assert(!path_states(*p).drop_last().contains(k)) by {
                if path_states(*p).drop_last().contains(k) {
                    let i = choose|i: int| 0 <= i < path_states(*p).drop_last().len() && path_states(*p).drop_last()[i] == k;
                    assert(path_states(*p)[i] == k);
                }
            }
            lemma_cached_along_outside(m2, p, total, k);
        },
    }
}

/// Along a chain that visits no state twice, the state at index `i` (a proper
/// ancestor's) is recorded with `total` less the cost of the chain up to it.
proof fn lemma_cached_along_value<SS: State, G: SearchGraph<SS>>(
    g: &G,
    m: Map<SS, u32>,
    node: Rc<Node<SS>>,
    total: u32,
    i: int,
)
    requires
        node_ok(g, *node),
        path_states(*node).no_duplicates(),
        0 <= i < path_states(*node).len() - 1,
    ensures
        cached_along(m, *node, total).dom().contains(path_states(*node)[i]),
        cached_along(m, *node, total)[path_states(*node)[i]] == (total - path_cost(
            g,
            path_states(*node).subrange(0, i + 1),
        )) as u32,
    decreases node,
{
    match node.parent {
        None => {},
        Some(p) => {
            let m2 = recorded(m, &p, total);
            assert(cached_along(m, *node, total) == cached_along(m2, *p, total));
            let ps = chain_of(&node);
            let pp = chain_of(&p);
            assert(ps.drop_last() =~= pp);
            assert(pp.no_duplicates()) by {
                assert forall|a: int, b: int| 0 <= a < pp.len() && 0 <= b < pp.len() && a != b implies pp[a] != pp[b] by {
                    assert(pp[a] == ps[a] && pp[b] == ps[b]);
                }
            }
            lemma_node_path(g, p);
            lemma_last_state(p);
            assert(ps[i] == pp[i]);
            assert(ps.subrange(0, i + 1) =~= pp.subrange(0, i + 1));
            if i == pp.len() - 1 {
                assert(pp.subrange(0, i + 1) =~= pp);
                assert(!pp.drop_last().contains(*p.state)) by {
                    if pp.drop_last().contains(*p.state) {
                        let j = choose|j: int| 0 <= j < pp.drop_last().len() && pp.drop_last()[j] == *p.state;
                        assert(pp[j] == pp[pp.len() - 1]);
                    }
                }
                lemma_cached_along_outside(m2, p, total, state_of(&p));
            } else {
                lemma_cached_along_value(g, m2, p, total, i);
            }
        },
    }
}

/// Joining a path to one that starts where it ends: a path whose exact cost is
/// the sum of theirs.
proof fn lemma_path_concat<SS: State, G: SearchGraph<SS>>(g: &G, a: Seq<SS>, b: Seq<SS>)
    requires
        is_path(g, a),
        is_path(g, b),
        a.last() == b[0],
    ensures
        is_path(g, a + b.drop_first()),
        (a + b.drop_first())[0] == a[0],
        (a + b.drop_first()).last() == b.last(),
        path_sum(g, a + b.drop_first()) == path_sum(g, a) + path_sum(g, b),
{
    let c = a + b.drop_first();
    let j = a.len() - 1;
    assert(c.subrange(0, j + 1) =~= a);
    assert(c.subrange(j, c.len() as int) =~= b) by {
        assert forall|t: int| 0 <= t < b.len() implies c.subrange(j, c.len() as int)[t] == b[t] by {
            if t == 0 {
                assert(c[j] == a[j]);
            } else {
                assert(c[j + t] == b.drop_first()[t - 1]);
            }
        }
    }
    assert forall|t: int| 0 < t < c.len() implies g.graph_children(c[t - 1]).contains(#[trigger] c[t]) by {
        if t <= j {
            assert(c[t] == a[t] && c[t - 1] == a[t - 1]);
        } else {
            assert(c[t] == b[t - j] && c[t - 1] == b[t - j - 1]) by {
                assert(c.subrange(j, c.len() as int)[t - j] == c[t]);
                assert(c.subrange(j, c.len() as int)[t - j - 1] == c[t - 1]);
            }
        }
    }
    lemma_path_split(g, c, j);
    if b.len() == 1 {
        assert(c =~= a);
    }
}

/// Without further abstraction, the costs recorded along a least-cost goal
/// chain are least costs from their states.
proof fn lemma_least_recorded<'a, S: State, SS: State, P: HAProblem<S, SS>>(
    problem: &P,
    graph: &AbstractGraph<'a, S, P>,
    start: SS,
    m: Map<SS, u32>,
    goal_node: Rc<Node<SS>>,
)
    requires
        graph.problem == problem,
        node_ok(graph, *goal_node),
        root_state(*goal_node) == start,
        path_states(*goal_node).no_duplicates(),
        least_cost_goal(graph, start, goal_node),
        goal_node.cost_from_root < u32::MAX,
    ensures
        forall|k: SS|
            #[trigger] cached_along(m, *goal_node, goal_node.cost_from_root).dom().contains(k) && !m.dom().contains(k)
                ==> no_cheaper_route::<S, SS, P>(problem, k, cached_along(m, *goal_node, goal_node.cost_from_root)[k]),
{
    let t = goal_node.cost_from_root;
    let fin = cached_along_rc(m, &goal_node, t);
    let ps = chain_of(&goal_node);
    lemma_node_path(graph, goal_node);
    lemma_path_cost_saturates(graph, ps);
    assert forall|k: SS| #[trigger] fin.dom().contains(k) && !m.dom().contains(k) implies no_cheaper_route::<
        S,
        SS,
        P,
    >(problem, k, fin[k]) by {
        if !ps.drop_last().contains(k) {
            lemma_cached_along_outside(m, goal_node, t, k);
        }
        let i = choose|i: int| 0 <= i < ps.drop_last().len() && ps.drop_last()[i] == k;
        assert(ps[i] == k);
        lemma_cached_along_value(graph, m, goal_node, t, i);
        let pre = ps.subrange(0, i + 1);
        lemma_path_split(graph, ps, i);
        lemma_path_cost_saturates(graph, pre);
        assert(is_path(graph, pre)) by {
            assert forall|x: int| 0 < x < pre.len() implies graph.graph_children(pre[x - 1]).contains(#[trigger] pre[x]) by {
                assert(pre[x] == ps[x] && pre[x - 1] == ps[x - 1]);
            }
        }
        let gk = graph_from::<S, SS, P>(problem, k);
        assert forall|q: Seq<SS>|
            #![trigger is_path(&gk, q)]
            is_path(&gk, q) && q[0] == k && problem.spec_is_abstract_goal(q.last()) implies fin[k] <= path_sum(&gk, q) by {
            lemma_graphs_agree(&gk, graph, q);
            lemma_path_concat(graph, pre, q);
            assert(is_path(graph, pre + q.drop_first()));
        }
    }
}

/// `cached_along` for the node behind `n`.
spec fn cached_along_rc<SS: State>(m: Map<SS, u32>, n: &Rc<Node<SS>>, total: u32) -> Map<SS, u32> {
    cached_along(m, **n, total)
}

/// The state of the node behind `n`.
spec fn state_of<SS: State>(n: &Rc<Node<SS>>) -> SS {
    *n.state
}

/// The last state of a node's chain is its own.
proof fn lemma_last_state<SS: State>(node: Rc<Node<SS>>)
    ensures
        path_states(*node).len() > 0,
        path_states(*node).last() == *node.state,
{
}

/// The states of the chain of a well-formed node lie in the graph's space.
proof fn lemma_chain_in_space<SS: State, G: SearchGraph<SS>>(g: &G, node: Rc<Node<SS>>)
    requires
        node_ok(g, *node),
    ensures
        forall|i: int| 0 <= i < path_states(*node).len() ==> g.in_graph_space(#[trigger] path_states(*node)[i]),
    decreases node,
{
    match node.parent {
        None => {},
        Some(p) => {
            lemma_chain_in_space(g, p);
            assert forall|i: int| 0 <= i < path_states(*node).len() implies g.in_graph_space(
                #[trigger] path_states(*node)[i],
            ) by {
                if i < path_states(*p).len() {
                    assert(path_states(*node)[i] == path_states(*p)[i]);
                }
            }
        },
    }
}

/// Along the chain of a node with a parent, the root's state is recorded with
/// the whole cost `total`.
proof fn lemma_cached_along_root<SS: State, G: SearchGraph<SS>>(g: &G, m: Map<SS, u32>, node: Rc<Node<SS>>, total: u32)
    requires
        node_ok(g, *node),
        node.parent is Some,
    ensures
        cached_along(m, *node, total).dom().contains(root_state(*node)),
        cached_along(m, *node, total)[root_state(*node)] == total,
    decreases node,
{
    match node.parent {
        None => {},
        Some(p) => {
            let m2 = recorded(m, &p, total);
            assert(cached_along(m, *node, total) == cached_along(m2, *p, total));
            assert(node_ok(g, *p));
            assert(root_state(*node) == root_state(*p));
            match p.parent {
                None => {
                    assert(p.cost_from_root == 0);
                    assert(root_state(*p) == *p.state);
                    assert(cached_along(m2, *p, total) == m2);
                },
                Some(q) => {
                    lemma_cached_along_root(g, m2, p, total);
                },
            }
        },
    }
}

/// What a search finds is a hierarchical estimate.
proof fn lemma_found_value<S: State, SS: State, P: HAProblem<S, SS>>(problem: &P, start: SS, r: u32)
    requires
        found_or_unreachable::<S, SS, P>(problem, start, r),
    ensures
        hierarchical_value::<S, SS, P>(problem, start, r),
{
    let g = graph_from::<S, SS, P>(problem, start);
    let any = any_rank_graph::<S, SS, P>(problem);
    if exists|path: Seq<SS>| goal_route::<S, SS, P>(problem, &g, start, path) && path_cost(&g, path) == r {
        let path = choose|path: Seq<SS>| goal_route::<S, SS, P>(problem, &g, start, path) && path_cost(&g, path) == r;
        lemma_graphs_agree(&g, &any, path);
        lemma_path_cost_saturates(&g, path);
        assert(goal_route::<S, SS, P>(problem, &any, start, path));
        if path_sum(&any, path) > u32::MAX {
            assert(is_path(&any, path) && path.no_duplicates() && path_sum(&any, path) >= u32::MAX);
            assert(may_overflow::<S, SS, P>(problem));
        }
        assert(route_value::<S, SS, P>(problem, start, r));
    } else {
        assert forall|path: Seq<SS>| #![trigger is_path(&any, path)] is_path(&any, path) && path[0] == start implies !problem.spec_is_abstract_goal(path.last()) by {
            lemma_graphs_agree(&g, &any, path);
            assert(is_path(&g, path));
        }
    }
}

/// The heuristic of the abstract state `start_state`: its cached cost if any;
/// otherwise the cost of an abstract search from it to an abstract goal (whose
/// path states are then cached with their costs to the goal), guided by the
/// heuristic of the next abstraction; `u32::MAX` when no goal is reachable.
#[verifier::spinoff_prover]
fn retrieve_hierarchical_heuristic<S: State, SS: State, P: HAProblem<S, SS>>(
    problem: &P,
    start_state: SS,
    cache: &mut HeuristicCache<SS>,
) -> (r: u32)
    requires
        problem.well_posed(),
        problem.in_abstract_space(start_state),
        old(cache).wf(),
        cache_sound::<S, SS, P>(problem, old(cache)@),
    ensures
        final(cache).wf(),
        cache_sound::<S, SS, P>(problem, final(cache)@),
        forall|k: SS| #[trigger] old(cache)@.dom().contains(k) ==> final(cache)@.dom().contains(k),
        agree_from::<S, SS, P>(problem, old(cache)@, final(cache)@, problem.abstraction_rank(start_state) + 1),
        old(cache)@.dom().contains(start_state) ==> r == old(cache)@[start_state] && final(cache)@ == old(cache)@
            && route_value::<S, SS, P>(problem, start_state, r),
        !old(cache)@.dom().contains(start_state) ==> found_or_unreachable::<S, SS, P>(problem, start_state, r),
        !old(cache)@.dom().contains(start_state) && problem.spec_is_abstract_goal(start_state) ==> r == 0,
        !old(cache)@.dom().contains(start_state) && no_further_abstraction::<S, SS, P>(
            problem,
            &graph_from::<S, SS, P>(problem, start_state),
        ) ==> no_cheaper_route::<S, SS, P>(problem, start_state, r),
        !old(cache)@.dom().contains(start_state) && !problem.spec_is_abstract_goal(start_state) && !no_goal_from::<
            S,
            SS,
            P,
        >(problem, &graph_from::<S, SS, P>(problem, start_state), start_state) ==> {
            &&& final(cache)@.dom().contains(start_state)
            &&& final(cache)@[start_state] == r
            &&& exists|n: Node<SS>, mid: Map<SS, u32>|
                {
                    &&& #[trigger] cached_along(mid, n, r) == final(cache)@
                    &&& node_ok(&graph_from::<S, SS, P>(problem, start_state), n)
                    &&& root_state(n) == start_state
                    &&& problem.spec_is_abstract_goal(*n.state)
                    &&& path_states(n).no_duplicates()
                    &&& guided::<S, SS, P>(problem, n)
                    &&& n.cost_from_root == r
                    &&& forall|k: SS| #[trigger] old(cache)@.dom().contains(k) ==> mid.dom().contains(k)
                    &&& agree_from::<S, SS, P>(problem, old(cache)@, mid, problem.abstraction_rank(start_state))
                    &&& no_further_abstraction::<S, SS, P>(problem, &graph_from::<S, SS, P>(problem, start_state))
                        ==> mid == old(cache)@
                }
        },
        !old(cache)@.dom().contains(start_state) && no_further_abstraction::<S, SS, P>(
            problem,
            &graph_from::<S, SS, P>(problem, start_state),
        ) && r < u32::MAX ==> forall|k: SS|
            #[trigger] final(cache)@.dom().contains(k) && !old(cache)@.dom().contains(k) ==> no_cheaper_route::<
                S,
                SS,
                P,
            >(problem, k, final(cache)@[k]),
        !old(cache)@.dom().contains(start_state) && problem.spec_is_abstract_goal(start_state) ==> {
            &&& agree_from::<S, SS, P>(problem, old(cache)@, final(cache)@, problem.abstraction_rank(start_state))
            &&& problem.spec_further_abstract(start_state) is None ==> final(cache)@ == old(cache)@
        },
    decreases problem.abstraction_rank(start_state), 1nat,
{
    if let Some(cached_cost) = cache.get(&start_state) {
        return cached_cost;
    }
    let ghost start = start_state;
    let ghost cache0 = cache@;
    proof {
        problem.lemma_abstraction();
    }
    let mut current_sets = AStarSets::new();
    let start_state_heuristic = match problem.further_abstract(&start_state) {
        Some(start_state_abstraction) => match cache.get(&start_state_abstraction) {
            Some(h) => {
                proof {
                    assert(route_value::<S, SS, P>(problem, start_state_abstraction, h));
                }
                h
            },
            None => {
                let v = retrieve_hierarchical_heuristic(problem, start_state_abstraction, cache);
                proof {
                    lemma_found_value::<S, SS, P>(problem, start_state_abstraction, v);
                    assert(problem.abstraction_rank(start_state_abstraction) < problem.abstraction_rank(start));
                    assert(agree_from::<S, SS, P>(problem, cache0, cache0, 0));
                    lemma_agree_trans::<S, SS, P>(
                        problem,
                        cache0,
                        cache0,
                        cache@,
                        0,
                        problem.abstraction_rank(start_state_abstraction) + 1,
                        problem.abstraction_rank(start),
                    );
                }
                v
            },
        },
        None => 0,
    };
    proof {
        if cache@ == cache0 {
            assert(agree_from::<S, SS, P>(problem, cache0, cache@, problem.abstraction_rank(start)));
        }
    }
    assert(guidance::<S, SS, P>(problem, start, start_state_heuristic));
    current_sets.create_and_add_first_node(start_state, start_state_heuristic);
    proof {
        assert forall|n: Rc<Node<SS>>| #[trigger] current_sets.open@.contains(n) implies guided::<S, SS, P>(
            problem,
            *n,
        ) by {
            assert(n == current_sets.open@[0]);
            assert(guidance::<S, SS, P>(problem, *n.state, start_state_heuristic));
        }
    }
    let graph: AbstractGraph<'_, S, P> = AbstractGraph {
        problem,
        rank_bound: Ghost(problem.abstraction_rank(start)),
        original: PhantomData,
    };
    proof {
        assert(graph == graph_from::<S, SS, P>(problem, start));
        assert(node_ok(&graph, *current_sets.open@[0]));
        assert(current_sets.closed_states() =~= Seq::<SS>::empty());
        assert(current_sets.open_states()[0] == start);
    }
    let ghost cache1 = cache@;
    let ghost sets0 = current_sets;
    let path = abstract_search(problem, &mut current_sets, &graph, cache);
    let ghost mid = cache@;
    proof {
        if no_further_abstraction::<S, SS, P>(problem, &graph) {
            assert(graph.in_graph_space(start));
            assert(cache1 == cache0);
            assert(mid == cache0);
        }
        assert(sets0.has_state(start));
        assert(current_sets.has_state(start));
        assert(sets0.rooted_at(start));
    }
    match path {
        Some(goal_node) => {
            proof {
                let k = choose|k: int| #[trigger] picked(sets0, k, current_sets.closed@[0]);
                assert(k == 0);
                assert(current_sets.closed@.contains(current_sets.closed@[current_sets.closed@.len() - 1]));
                if problem.spec_is_abstract_goal(start) {
                    assert(current_sets.closed_states()[0] == start);
                    assert(goal_node == current_sets.closed@[0]);
                    assert(goal_node.parent is None);
                    assert(current_sets.closed@.len() == 1);
                    assert(mid == cache1);
                } else {
                    assert(root_state(*goal_node) == start) by {
                        let c = current_sets.closed@;
                        assert(c[c.len() - 1] == goal_node);
                    }
                    assert(goal_node.parent is Some);
                    lemma_cached_along_root(&graph, mid, goal_node, goal_node.cost_from_root);
                }
                let c = current_sets.closed@;
                assert(node_ok(&graph, *c[c.len() - 1]));
                assert(chain_closed(*c[c.len() - 1], current_sets.closed_states()));
                lemma_node_path(&graph, goal_node);
                assert(goal_route::<S, SS, P>(problem, &graph, start, path_states(*goal_node)));
                lemma_ancestors_within(&graph, goal_node, goal_node.cost_from_root);
                assert(root_state(*c[c.len() - 1]) == start);
                lemma_cached_along_sound(problem, &graph, goal_node, goal_node);
                assert(cache_sound::<S, SS, P>(problem, cache@));
                lemma_cached_along_keeps(goal_node, goal_node.cost_from_root);
                assert(forall|q: SS| #[trigger] cache0.dom().contains(q) ==> mid.dom().contains(q));
            }
            let r = cache_path_states(cache, goal_node);
            proof {
                let bound = problem.abstraction_rank(start);
                lemma_chain_in_space(&graph, goal_node);
                let fin = cache@;
                assert forall|k: SS|
                    #![trigger mid.dom().contains(k)]
                    #![trigger fin.dom().contains(k)]
                    problem.abstraction_rank(k) >= bound + 1 implies (mid.dom().contains(k) == fin.dom().contains(k))
                        && (mid.dom().contains(k) ==> mid[k] == fin[k]) by {
                    assert(!path_states(*goal_node).drop_last().contains(k)) by {
                        if path_states(*goal_node).drop_last().contains(k) {
                            let i = choose|i: int|
                                0 <= i < path_states(*goal_node).drop_last().len() && path_states(
                                    *goal_node,
                                ).drop_last()[i] == k;
                            assert(path_states(*goal_node)[i] == k);
                            assert(graph.in_graph_space(path_states(*goal_node)[i]));
                        }
                    }
                    lemma_cached_along_outside(mid, goal_node, goal_node.cost_from_root, k);
                }
                assert(cache@ == cached_along(mid, *goal_node, goal_node.cost_from_root));
                assert(agree_from::<S, SS, P>(problem, mid, cache@, bound + 1));
                lemma_agree_trans::<S, SS, P>(problem, cache0, cache1, mid, bound, bound, bound);
                lemma_agree_trans::<S, SS, P>(problem, cache0, mid, cache@, bound, bound + 1, bound + 1);
                if no_further_abstraction::<S, SS, P>(problem, &graph) && r < u32::MAX {
                    lemma_least_recorded::<S, SS, P>(problem, &graph, start, mid, goal_node);
                }
            }
            r
        },
        None => {
            proof {
                let bound = problem.abstraction_rank(start);
                lemma_agree_trans::<S, SS, P>(problem, cache0, cache1, mid, bound, bound, bound + 1);
                assert(current_sets.closed_states().contains(start));
                assert forall|path: Seq<SS>|
                    #![trigger is_path(&graph, path)]
                    is_path(&graph, path) && path[0] == start implies !problem.spec_is_abstract_goal(path.last()) by {
                    lemma_exhausted_search_no_goal(&graph, current_sets, start, path);
                }
            }
            u32::MAX
        },
    }
}

/// An estimate that guides an abstract search at `s`: a hierarchical estimate
/// of its further abstraction, 0 where there is none.
pub open spec fn guidance<S: State, SS: State, P: HAProblem<S, SS>>(problem: &P, s: SS, v: u32) -> bool {
    match problem.spec_further_abstract(s) {
        Some(a) => hierarchical_value::<S, SS, P>(problem, a, v),
        None => v == 0,
    }
}

/// The estimate of `node`, and of each of its ancestors, is its cost plus
/// guidance for its state (saturating).
pub open spec fn guided<S: State, SS: State, P: HAProblem<S, SS>>(problem: &P, node: Node<SS>) -> bool
    decreases node,
{
    &&& exists|v: u32|
        #[trigger] guidance::<S, SS, P>(problem, *node.state, v) && node.estimated_total_cost == sat_add(
            node.cost_from_root,
            v,
        )
    &&& match node.parent {
        None => true,
        Some(p) => guided::<S, SS, P>(problem, *p),
    }
}

/// Every node of the lists is guided.
pub open spec fn guided_lists<S: State, SS: State, P: HAProblem<S, SS>>(problem: &P, sets: AStarSets<SS>) -> bool {
    &&& forall|n: Rc<Node<SS>>| #[trigger] sets.open@.contains(n) ==> guided::<S, SS, P>(problem, *n)
    &&& forall|n: Rc<Node<SS>>| #[trigger] sets.closed@.contains(n) ==> guided::<S, SS, P>(problem, *n)
}

proof fn lemma_guided_select<S: State, SS: State, P: HAProblem<S, SS>>(
    problem: &P,
    before: AStarSets<SS>,
    base: AStarSets<SS>,
    c: Rc<Node<SS>>,
)
    requires
        guided_lists::<S, SS, P>(problem, before),
        base.open@.is_prefix_of(before.open@),
        base.closed@ == before.closed@.push(c),
        before.open@.contains(c),
    ensures
        guided_lists::<S, SS, P>(problem, base),
        guided::<S, SS, P>(problem, *c),
{
    assert forall|n: Rc<Node<SS>>| #[trigger] base.open@.contains(n) implies guided::<S, SS, P>(problem, *n) by {
        let i = choose|i: int| 0 <= i < base.open@.len() && base.open@[i] == n;
        assert(before.open@[i] == n);
        assert(before.open@.contains(n));
    }
    assert forall|n: Rc<Node<SS>>| #[trigger] base.closed@.contains(n) implies guided::<S, SS, P>(problem, *n) by {
        let i = choose|i: int| 0 <= i < base.closed@.len() && base.closed@[i] == n;
        if i < before.closed@.len() {
            assert(before.closed@[i] == n);
            assert(before.closed@.contains(n));
        }
    }
}

/// No path from `start` to an abstract goal costs less than `r`.
pub open spec fn no_cheaper_route<S: State, SS: State, P: HAProblem<S, SS>>(problem: &P, start: SS, r: u32) -> bool {
    let g = graph_from::<S, SS, P>(problem, start);
    forall|path: Seq<SS>|
        #![trigger is_path(&g, path)]
        is_path(&g, path) && path[0] == start && problem.spec_is_abstract_goal(path.last()) ==> r <= path_sum(&g, path)
}

/// No state of `g`'s space has a further abstraction.
pub open spec fn no_further_abstraction<'a, S: State, SS: State, P: HAProblem<S, SS>>(
    problem: &P,
    g: &AbstractGraph<'a, S, P>,
) -> bool {
    forall|s: SS| #[trigger] g.in_graph_space(s) ==> problem.spec_further_abstract(s) is None
}

/// A* over the abstract graph; the heuristic of a state is that of its further
/// abstraction (0 when there is none).
#[verifier::spinoff_prover]
fn abstract_search<S: State, SS: State, P: HAProblem<S, SS>>(
    problem: &P,
    sets: &mut AStarSets<SS>,
    graph: &AbstractGraph<'_, S, P>,
    cache: &mut HeuristicCache<SS>,
) -> (result: Option<Rc<Node<SS>>>)
    requires
        graph.problem == problem,
        problem.well_posed(),
        old(sets).wf(graph),
        old(cache).wf(),
        cache_sound::<S, SS, P>(problem, old(cache)@),
        guided_lists::<S, SS, P>(problem, *old(sets)),
    ensures
        guided_lists::<S, SS, P>(problem, *final(sets)),
        agree_from::<S, SS, P>(problem, old(cache)@, final(cache)@, graph.rank_bound@),
        no_further_abstraction::<S, SS, P>(problem, graph) ==> final(cache)@ == old(cache)@,
        final(sets).closed@.len() == old(sets).closed@.len() + 1 && result is Some ==> final(cache)@ == old(
            cache,
        )@,
        final(sets).wf(graph),
        final(cache).wf(),
        cache_sound::<S, SS, P>(problem, final(cache)@),
        forall|k: SS| #[trigger] old(cache)@.dom().contains(k) ==> final(cache)@.dom().contains(k),
        search_progress(*old(sets), *final(sets)),
        forall|i: int|
            old(sets).closed@.len() <= i < final(sets).closed@.len() && problem.spec_is_abstract_goal(
                #[trigger] final(sets).closed_states()[i],
            ) ==> i == final(sets).closed@.len() - 1 && result == Some(final(sets).closed@[i]),
        final(sets).closed@.len() > old(sets).closed@.len() ==> exists|k: int|
            #[trigger] picked(*old(sets), k, final(sets).closed@[old(sets).closed@.len() as int]),
        fresh(*old(sets)) && no_further_abstraction::<S, SS, P>(problem, graph) ==> (result is Some ==> least_cost_goal(graph, *old(sets).open@[0].state, result->0)),
        match result {
            Some(n) => {
                &&& final(sets).closed@.len() > old(sets).closed@.len()
                &&& final(sets).closed@.last() == n
                &&& problem.spec_is_abstract_goal(*n.state)
            },
            None => final(sets).open@.len() == 0,
        },
    decreases graph.rank_bound@, 0nat,
{
    proof {
        lemma_closed_bounded(graph, *sets);
        lemma_zero_consistent::<SS, AbstractGraph<'_, S, P>>(graph);
    }
    let ghost z = ZeroEstimator;
    let ghost start0 = sets.open_states()[0];
    let ghost opt0 = fresh(*sets) && no_further_abstraction::<S, SS, P>(problem, graph);
    proof {
        if opt0 {
            lemma_fresh_estimated(&z, *sets);
            assert(node_ok(graph, *sets.open@[0]));
        }
    }
    loop
        invariant
            opt0 == (fresh(*old(sets)) && no_further_abstraction::<S, SS, P>(problem, graph)),
            opt0 ==> (sets.closed@.len() > 0 ==> forall|i: int|
                0 <= i < sets.open@.len() ==> (#[trigger] sets.open@[i]).parent is Some),
            consistent(graph, &z),
            guided_lists::<S, SS, P>(problem, *sets),
            agree_from::<S, SS, P>(problem, old(cache)@, cache@, graph.rank_bound@),
            no_further_abstraction::<S, SS, P>(problem, graph) ==> cache@ == old(cache)@,
            sets.closed@.len() == old(sets).closed@.len() ==> cache@ == old(cache)@,
            opt0 ==> start0 == *old(sets).open@[0].state && graph.in_graph_space(start0),
            opt0 ==> sets.estimated(&z),
            opt0 ==> closed_optimal(graph, &z, *sets, start0),
            opt0 ==> frontier_covered(graph, *sets, sets.closed@.len() as int),
            opt0 ==> (sets.closed@.len() > 0 ==> sets.closed_states().contains(start0)),
            graph.problem == problem,
            problem.well_posed(),
            graph.graph_ready(),
            sets.wf(graph),
            cache.wf(),
            cache_sound::<S, SS, P>(problem, cache@),
            forall|k: SS| #[trigger] old(cache)@.dom().contains(k) ==> cache@.dom().contains(k),
            search_progress(*old(sets), *sets),
            closed_non_goals(graph, *sets, old(sets).closed@.len() as int),
            sets.closed@.len() <= graph.graph_size(),
            sets.closed@.len() >= old(sets).closed@.len(),
            sets.closed@.len() == old(sets).closed@.len() ==> *sets == *old(sets),
            sets.closed@.len() > old(sets).closed@.len() ==> exists|k: int|
                #[trigger] picked(*old(sets), k, sets.closed@[old(sets).closed@.len() as int]),
        decreases graph.graph_size() - sets.closed@.len(),
    {
        let ghost before = *sets;
        let current = match select_node(sets, graph) {
            Some(c) => c,
            None => {
                proof {
                    lemma_progress_trans(*old(sets), before, *sets);
                    let ol = old(sets).closed@.len() as int;
                    if sets.closed@.len() > ol {
                        let k = choose|k: int| #[trigger] picked(*old(sets), k, before.closed@[ol]);
                        assert(sets.closed@[ol] == before.closed@[ol]);
                        assert(picked(*old(sets), k, sets.closed@[ol]));
                    }
                }
                return None;
            },
        };
        let ghost base = *sets;
        proof {
            lemma_progress_trans(*old(sets), before, base);
            assert(base.closed@[base.closed@.len() - 1] == current);
            lemma_guided_select::<S, SS, P>(problem, before, base, current);
            let ol = old(sets).closed@.len() as int;
            if before.closed@.len() == ol {
                let k = choose|k: int| picked(before, k, current) && base.open@ == before.open@.take(k);
                assert(picked(*old(sets), k, base.closed@[ol]));
            } else {
                let k = choose|k: int| #[trigger] picked(*old(sets), k, before.closed@[ol]);
                assert(base.closed@[ol] == before.closed@[ol]);
                assert(picked(*old(sets), k, base.closed@[ol]));
            }
            if opt0 {
                lemma_estimated_select(&z, before, base, current);
                let kk = choose|kk: int| picked(before, kk, current) && base.open@ == before.open@.take(kk);
                assert(old(sets).closed@.len() == 0);
                lemma_select_optimal(graph, &z, before, base, start0, kk, current);
                assert forall|i: int| 0 <= i < base.open@.len() implies (#[trigger] base.open@[i]).parent is Some by {
                    assert(base.open@[i] == before.open@[i]);
                    if before.closed@.len() == 0 {
                        assert(kk == 0);
                    }
                }
            }
        }
        if graph.reached_goal(&current.state) {
            proof {
                lemma_goal_round(graph, before, base, current);
                assert forall|i: int| old(sets).closed@.len() <= i < before.closed@.len() implies !problem.spec_is_abstract_goal(
                    #[trigger] sets.closed_states()[i],
                ) by {
                    assert(sets.closed_states()[i] == before.closed_states()[i]);
                }
            }
            return Some(current);
        }
        let children = graph.expand(&current.state);
        let ghost kids = rc_values(children@);
        let mut k: usize = 0;
        while k < children.len()
            invariant
                graph.problem == problem,
                problem.well_posed(),
                graph.graph_ready(),
                kids == graph.graph_children(*current.state),
                kids.len() == children@.len(),
                kids == rc_values(children@),
                k <= children@.len(),
                graph.in_graph_space(*current.state),
                round_ok(graph, base, current, *sets),
                forall|m: int| 0 <= m < k ==> sets.has_state(#[trigger] kids[m]),
                forall|t: SS| #[trigger] base.has_state(t) ==> sets.has_state(t),
                cache.wf(),
                cache_sound::<S, SS, P>(problem, cache@),
                forall|k: SS| #[trigger] old(cache)@.dom().contains(k) ==> cache@.dom().contains(k),
                guided_lists::<S, SS, P>(problem, *sets),
                guided::<S, SS, P>(problem, *current),
                agree_from::<S, SS, P>(problem, old(cache)@, cache@, graph.rank_bound@),
                no_further_abstraction::<S, SS, P>(problem, graph) ==> cache@ == old(cache)@,
                before.closed@.len() >= old(sets).closed@.len(),
                sets.closed@.len() == before.closed@.len() + 1,
                opt0 == (fresh(*old(sets)) && no_further_abstraction::<S, SS, P>(problem, graph)),
                opt0 ==> forall|i: int| 0 <= i < sets.open@.len() ==> (#[trigger] sets.open@[i]).parent is Some,
                opt0 ==> start0 == *old(sets).open@[0].state && graph.in_graph_space(start0),
                opt0 ==> sets.estimated(&z),
                opt0 ==> closed_optimal(graph, &z, *sets, start0),
                opt0 ==> frontier_covered(graph, *sets, before.closed@.len() as int),
                opt0 ==> sets.closed_states().contains(start0),
                opt0 ==> forall|m: int| 0 <= m < k ==> child_covered(graph, *sets, current, #[trigger] kids[m]),
            decreases children@.len() - k,
        {
            let child = rc_clone(&children[k]);
            proof {
                graph.lemma_graph_space();
                problem.lemma_abstraction();
                assert(kids[k as int] == *child);
                assert(graph.in_graph_space(graph.graph_children(*current.state)[k as int]));
            }
            let g = graph.step_cost(&child);
            let ghost cache2 = cache@;
            let ghost cache_before_h = cache@;
            let h = match problem.further_abstract(&child) {
                Some(abstract_state) => {
                    let ghost cache3 = cache@;
                    let v = retrieve_hierarchical_heuristic(problem, abstract_state, cache);
                    proof {
                        assert(problem.abstraction_rank(abstract_state) < problem.abstraction_rank(kids[k as int]));
                        lemma_agree_trans::<S, SS, P>(
                            problem,
                            old(cache)@,
                            cache3,
                            cache@,
                            graph.rank_bound@,
                            problem.abstraction_rank(abstract_state) + 1,
                            graph.rank_bound@,
                        );
                        if cache3.dom().contains(abstract_state) {
                            assert(route_value::<S, SS, P>(problem, abstract_state, v));
                        } else {
                            lemma_found_value::<S, SS, P>(problem, abstract_state, v);
                        }
                    }
                    v
                },
                None => 0,
            };
            let ghost child_state = kids[k as int];
            assert(guidance::<S, SS, P>(problem, child_state, h));
            let ghost sets2 = *sets;
            add_child(sets, graph, Ghost(base), &current, child, g, h);
            proof {
                assert forall|m: int| 0 <= m < k + 1 implies sets.has_state(#[trigger] kids[m]) by {
                    if m < k {
                        assert(sets2.has_state(kids[m]));
                    }
                }
                assert forall|t: SS| #[trigger] base.has_state(t) implies sets.has_state(t) by {
                    assert(sets2.has_state(t));
                }
                assert forall|q: SS| #[trigger] old(cache)@.dom().contains(q) implies cache@.dom().contains(q) by {
                    assert(cache2.dom().contains(q));
                }
                assert forall|n: Rc<Node<SS>>| #[trigger] sets.open@.contains(n) implies guided::<S, SS, P>(
                    problem,
                    *n,
                ) by {
                    if !sets2.open@.contains(n) {
                        let i = choose|i: int| 0 <= i < sets.open@.len() && sets.open@[i] == n;
                        assert(i >= base.open@.len()) by {
                            if i < base.open@.len() {
                                assert(base.open@[i] == sets2.open@[i]);
                                assert(sets2.open@.contains(sets2.open@[i]));
                            }
                        }
                        assert(n.parent == Some(current));
                        assert(guidance::<S, SS, P>(problem, *n.state, h));
                    }
                }
                assert forall|n: Rc<Node<SS>>| #[trigger] sets.closed@.contains(n) implies guided::<S, SS, P>(
                    problem,
                    *n,
                ) by {
                    assert(sets2.closed@.contains(n));
                }
                if opt0 {
                    assert(problem.spec_further_abstract(kids[k as int]) is None);
                    assert(h == 0);
                    assert(sets2.closed@.contains(current)) by {
                        assert(sets2.closed@[sets2.closed@.len() - 1] == current);
                    }
                    assert forall|n: Rc<Node<SS>>| #[trigger] sets.open@.contains(n) implies chain_estimated(&z, *n) by {
                        if !sets2.open@.contains(n) {
                            let i = choose|i: int| 0 <= i < sets.open@.len() && sets.open@[i] == n;
                            assert(i >= base.open@.len()) by {
                                if i < base.open@.len() {
                                    assert(base.open@[i] == sets2.open@[i]);
                                    assert(sets2.open@.contains(sets2.open@[i]));
                                }
                            }
                            assert(n.parent == Some(current));
                            assert(<ZeroEstimator as Estimator<SS>>::gives(&z, *n.state, 0));
                        }
                    }
                    assert forall|n: Rc<Node<SS>>| #[trigger] sets.closed@.contains(n) implies chain_estimated(&z, *n) by {
                        assert(sets2.closed@.contains(n));
                    }
                    assert forall|i: int| 0 <= i < sets.open@.len() implies (#[trigger] sets.open@[i]).parent is Some by {
                        if i < sets2.open@.len() {
                            assert(sets.open@[i] == sets2.open@[i]) by {
                                if sets.open@ != sets2.open@ {
                                    assert(sets.open@.drop_last()[i] == sets2.open@[i]);
                                }
                            }
                            assert(sets2.open@[i].parent is Some);
                        } else {
                            assert(base.open@.len() <= sets2.open@.len());
                            assert(sets.open@[i].parent == Some(current));
                        }
                    }
                    lemma_closed_optimal_same(graph, &z, sets2, *sets, start0);
                    assert forall|n: Rc<Node<SS>>| #[trigger] sets2.open@.contains(n) implies sets.open@.contains(n) by {
                        let j = choose|j: int| 0 <= j < sets2.open@.len() && sets2.open@[j] == n;
                        if sets.open@ != sets2.open@ {
                            assert(sets.open@.drop_last()[j] == n);
                            assert(sets.open@[j] == n);
                        }
                    }
                    assert(sets2.closed@ == sets.closed@);
                    lemma_cover_kept(graph, sets2, *sets, before.closed@.len() as int);
                    assert(sets.closed_states() =~= sets2.closed_states());
                    assert forall|m: int| 0 <= m < k + 1 implies child_covered(graph, *sets, current, #[trigger] kids[m]) by {
                        if m < k {
                            assert(child_covered(graph, sets2, current, kids[m]));
                        } else if !sets2.closed_states().contains(kids[m]) {
                            let last = sets.open@.len() - 1;
                            assert(sets.open_states()[last] == kids[m]);
                        }
                    }
                }
            }
            k = k + 1;
        }
        let ghost sets4 = *sets;
        finish_round(sets, graph, Ghost(before), Ghost(base), Ghost(current));
        proof {
            assert forall|n: Rc<Node<SS>>| #[trigger] sets.open@.contains(n) implies guided::<S, SS, P>(problem, *n) by {
                assert(sets4.open@.contains(n));
            }
            assert forall|n: Rc<Node<SS>>| #[trigger] sets.closed@.contains(n) implies guided::<S, SS, P>(problem, *n) by {
                assert(sets4.closed@.contains(n));
            }
            let ol = old(sets).closed@.len() as int;
            assert(sets.closed@[ol] == base.closed@[ol]);
            if opt0 {
                assert forall|n: Rc<Node<SS>>| #[trigger] sets.open@.contains(n) implies chain_estimated(&z, *n) by {
                    assert(sets4.open@.contains(n));
                }
                assert forall|i: int| 0 <= i < sets.open@.len() implies (#[trigger] sets.open@[i]).parent is Some by {
                    assert(sets.open@.contains(sets.open@[i]));
                    assert(sets4.open@.contains(sets.open@[i]));
                    let j = choose|j: int| 0 <= j < sets4.open@.len() && sets4.open@[j] == sets.open@[i];
                    assert(sets4.open@[j].parent is Some);
                }
                lemma_closed_optimal_same(graph, &z, sets4, *sets, start0);
                lemma_cover_kept(graph, sets4, *sets, before.closed@.len() as int);
                let bl = before.closed@.len() as int;
                assert(sets.closed_states() =~= sets4.closed_states());
                assert forall|i: int, kk: int|
                    0 <= i < sets.closed@.len() && i < sets.closed@.len() && !graph.graph_is_goal(
                        sets.closed_states()[i],
                    ) && 0 <= kk < graph.graph_children(sets.closed_states()[i]).len() implies child_covered(
                    graph,
                    *sets,
                    sets.closed@[i],
                    #[trigger] graph.graph_children(sets.closed_states()[i])[kk],
                ) by {
                    if i == bl {
                        assert(sets.closed@[i] == current);
                        assert(sets.closed_states()[i] == *current.state);
                        assert(child_covered(graph, sets4, current, kids[kk]));
                    }
                }
            }
            lemma_progress_trans(*old(sets), before, *sets);
            assert forall|i: int| old(sets).closed@.len() <= i < sets.closed@.len() implies !graph.graph_is_goal(
                #[trigger] sets.closed_states()[i],
            ) by {
                if i < before.closed@.len() {
                    assert(sets.closed_states()[i] == before.closed_states()[i]);
                } else {
                    assert(sets.closed_states()[i] == *current.state);
                }
            }
        }
    }
}

/// The hierarchical heuristic of original states, with its cache.
pub struct HierarchicalEstimator<'a, P, SS: State> {
    pub problem: &'a P,
    pub cache: HeuristicCache<SS>,
}

impl<'a, S: State, SS: State, P: HAProblem<S, SS>> Estimator<S> for HierarchicalEstimator<'a, P, SS> {
    type Source = &'a P;

    open spec fn source(&self) -> &'a P {
        self.problem
    }

    open spec fn accepts(&self, state: S) -> bool {
        &&& self.problem.well_posed()
        &&& self.problem.spec_original_problem().in_state_space(state)
        &&& self.cache.wf()
        &&& cache_sound::<S, SS, P>(self.problem, self.cache@)
    }

    open spec fn gives(&self, state: S, h: u32) -> bool {
        hierarchical_value::<S, SS, P>(self.problem, self.problem.spec_abstract_original(state), h)
    }

    /// The later estimator's cache keeps every cached state.
    open spec fn kept_by(&self, later: &Self) -> bool {
        forall|k: SS| #[trigger] self.cache@.dom().contains(k) ==> later.cache@.dom().contains(k)
    }

    proof fn lemma_kept_by(&self, b: &Self, c: &Self) {
    }

    /// The heuristic of the abstraction of `state`: the cached value where the
    /// abstraction is cached (the cache then stays as it was), else the cost
    /// found by searching the abstract space from it (0 from an abstract goal;
    /// otherwise the abstraction is then cached with it), or `u32::MAX` where no
    /// goal is reachable; cached entries are kept.
    fn estimate(&mut self, state: &S) -> (r: u32)
        ensures
            estimate_outcome::<S, SS, P>(*old(self), *final(self), *state, r),
            final(self).problem == old(self).problem,
            forall|k: SS| #[trigger] old(self).cache@.dom().contains(k) ==> final(self).cache@.dom().contains(k),
            ({
                let a = old(self).problem.spec_abstract_original(*state);
                &&& old(self).cache@.dom().contains(a) ==> r == old(self).cache@[a] && final(self).cache@ == old(self).cache@
                &&& !old(self).cache@.dom().contains(a) ==> found_or_unreachable::<S, SS, P>(old(self).problem, a, r)
                &&& !old(self).cache@.dom().contains(a) && old(self).problem.spec_is_abstract_goal(a) ==> r == 0
                &&& !old(self).cache@.dom().contains(a) && no_further_abstraction::<S, SS, P>(
                    old(self).problem,
                    &graph_from::<S, SS, P>(old(self).problem, a),
                ) ==> no_cheaper_route::<S, SS, P>(old(self).problem, a, r)
                &&& !old(self).cache@.dom().contains(a) && !old(self).problem.spec_is_abstract_goal(a)
                    && !no_goal_from::<S, SS, P>(old(self).problem, &graph_from::<S, SS, P>(old(self).problem, a), a)
                    ==> final(self).cache@.dom().contains(a) && final(self).cache@[a] == r
                &&& agree_from::<S, SS, P>(
                    old(self).problem,
                    old(self).cache@,
                    final(self).cache@,
                    old(self).problem.abstraction_rank(a) + 1,
                )
                &&& !old(self).cache@.dom().contains(a) && old(self).problem.spec_is_abstract_goal(a)
                    && old(self).problem.spec_further_abstract(a) is None ==> final(self).cache@ == old(self).cache@
                &&& !old(self).cache@.dom().contains(a) && no_further_abstraction::<S, SS, P>(
                    old(self).problem,
                    &graph_from::<S, SS, P>(old(self).problem, a),
                ) && r < u32::MAX ==> forall|k: SS|
                    #[trigger] final(self).cache@.dom().contains(k) && !old(self).cache@.dom().contains(k)
                        ==> no_cheaper_route::<S, SS, P>(old(self).problem, k, final(self).cache@[k])
            }),
    {
        proof {
            self.problem.lemma_abstraction();
        }
        let state_abstraction = self.problem.abstract_original(state);
        let r = retrieve_hierarchical_heuristic(self.problem, state_abstraction, &mut self.cache);
        proof {
            if old(self).cache@.dom().contains(state_abstraction) {
                assert(route_value::<S, SS, P>(self.problem, state_abstraction, r));
            } else {
                lemma_found_value::<S, SS, P>(self.problem, state_abstraction, r);
            }
        }
        r
    }
}

/// What an estimate of `state` does: a cached abstraction gives its cached cost
/// and leaves the cache as it was; an abstraction not cached, not itself an
/// abstract goal, from which a goal is reachable, is then cached with the estimate.
pub open spec fn estimate_outcome<'a, S: State, SS: State, P: HAProblem<S, SS>>(
    before: HierarchicalEstimator<'a, P, SS>,
    after: HierarchicalEstimator<'a, P, SS>,
    state: S,
    r: u32,
) -> bool {
    let problem = before.problem;
    let a = problem.spec_abstract_original(state);
    &&& after.problem == problem
    &&& before.cache@.dom().contains(a) ==> r == before.cache@[a] && after.cache@ == before.cache@
    &&& !before.cache@.dom().contains(a) && !problem.spec_is_abstract_goal(a) && !no_goal_from::<S, SS, P>(
        problem,
        &graph_from::<S, SS, P>(problem, a),
        a,
    ) ==> after.cache@.dom().contains(a) && after.cache@[a] == r
}

/// Law: estimating a state a second time gives the same estimate and leaves the
/// cache as it was, when the state's abstraction is cached or is not an abstract
/// goal and reaches one.
pub proof fn lemma_estimate_again<'a, S: State, SS: State, P: HAProblem<S, SS>>(
    e1: HierarchicalEstimator<'a, P, SS>,
    e2: HierarchicalEstimator<'a, P, SS>,
    e3: HierarchicalEstimator<'a, P, SS>,
    state: S,
    r1: u32,
    r2: u32,
)
    requires
        estimate_outcome::<S, SS, P>(e1, e2, state, r1),
        estimate_outcome::<S, SS, P>(e2, e3, state, r2),
        ({
            let a = e1.problem.spec_abstract_original(state);
            e1.cache@.dom().contains(a) || (!e1.problem.spec_is_abstract_goal(a) && !no_goal_from::<S, SS, P>(
                e1.problem,
                &graph_from::<S, SS, P>(e1.problem, a),
                a,
            ))
        }),
    ensures
        r2 == r1,
        e3.cache@ == e2.cache@,
{
}

/// A* search of an `HAProblem`'s original problem, guided by the hierarchical heuristic.
pub struct HierarchicalAStar<'a, S: State, SS: State, P: HAProblem<S, SS>> {
    problem: &'a P,
    sets: AStarSets<S>,
    cache: HeuristicCache<SS>,
}

impl<'a, S: State, SS: State, P: HAProblem<S, SS>> HierarchicalAStar<'a, S, SS, P> {
    pub closed spec fn spec_problem(&self) -> &'a P {
        self.problem
    }

    pub closed spec fn spec_sets(&self) -> AStarSets<S> {
        self.sets
    }

    pub closed spec fn spec_cache(&self) -> Map<SS, u32> {
        self.cache@
    }

    /// The hierarchical heuristic that guides the search, with its cache.
    pub closed spec fn spec_estimator(&self) -> HierarchicalEstimator<'a, P, SS> {
        HierarchicalEstimator { problem: self.problem, cache: self.cache }
    }

    /// The search's invariant: a well-posed problem, the lists well formed for the
    /// original problem's graph, all nodes descending from its start state, which
    /// is held, a well-formed cache in which each cost is that of a route from its
    /// state to an abstract goal (see `cache_sound`), and estimates that add the
    /// hierarchical heuristic to the cost from the root.
    pub closed spec fn inv(&self) -> bool {
        let original = self.problem.spec_original_problem();
        &&& self.problem.well_posed()
        &&& self.sets.wf(&ProblemGraph { problem: original })
        &&& self.sets.rooted_at(original.spec_start_state())
        &&& self.sets.has_state(original.spec_start_state())
        &&& self.cache.wf()
        &&& cache_sound::<S, SS, P>(self.problem, self.cache@)
        &&& self.sets.estimated(&self.spec_estimator())
    }

    /// Law: the estimate of every node of the search is its cost from the root
    /// plus a hierarchical estimate of its state's abstraction (see
    /// `hierarchical_value`).
    pub proof fn lemma_estimates(&self)
        requires
            self.inv(),
        ensures
            self.spec_estimator().problem == self.spec_problem(),
            self.spec_sets().estimated(&self.spec_estimator()),
    {
    }

    /// Law: every cost in the heuristic cache is the cost of a route from its
    /// abstract state to an abstract goal that visits no state twice (or, where
    /// route costs may overflow a `u32`, at most that cost).
    pub proof fn lemma_cache_sound(&self)
        requires
            self.inv(),
        ensures
            cache_sound::<S, SS, P>(self.spec_problem(), self.spec_cache()),
    {
    }

    /// Starts a search: the open list holds the original start state, estimated by
    /// an abstract search from its abstraction.
    pub fn new(problem: &'a P) -> (r: Self)
        requires
            problem.well_posed(),
        ensures
            r.inv(),
            r.spec_problem() == problem,
            r.spec_sets().closed@.len() == 0,
            r.spec_sets().open@.len() == 1,
            ({
                let original = problem.spec_original_problem();
                let start = original.spec_start_state();
                let h = r.spec_sets().open@[0].estimated_total_cost;
                &&& *r.spec_sets().open@[0] == first_node(start, h)
                &&& found_or_unreachable::<S, SS, P>(problem, problem.spec_abstract_original(start), h)
                &&& hierarchical_value::<S, SS, P>(problem, problem.spec_abstract_original(start), h)
                &&& ({
                    let a = problem.spec_abstract_original(start);
                    &&& problem.spec_is_abstract_goal(a) ==> h == 0
                    &&& problem.spec_is_abstract_goal(a) && problem.spec_further_abstract(a) is None
                        ==> r.spec_cache().dom().is_empty()
                    &&& no_further_abstraction::<S, SS, P>(problem, &graph_from::<S, SS, P>(problem, a))
                        ==> no_cheaper_route::<S, SS, P>(problem, a, h)
                    &&& !problem.spec_is_abstract_goal(a) && !no_goal_from::<S, SS, P>(
                        problem,
                        &graph_from::<S, SS, P>(problem, a),
                        a,
                    ) ==> r.spec_cache().dom().contains(a) && r.spec_cache()[a] == h
                })
            }),
    {
        proof {
            problem.lemma_abstraction();
            problem.spec_original_problem().lemma_state_space();
        }
        let mut cache = HeuristicCache::new();
        assert(cache_sound::<S, SS, P>(problem, cache@));
        let start_state = problem.original_problem().start_state();
        let start_abstraction = problem.abstract_original(&start_state);
        let estimated_total_cost = retrieve_hierarchical_heuristic(problem, start_abstraction, &mut cache);
        let mut sets = AStarSets::new();
        sets.create_and_add_first_node(start_state, estimated_total_cost);
        let r = HierarchicalAStar { problem, sets, cache };
        proof {
            let g = ProblemGraph { problem: problem.spec_original_problem() };
            assert(node_ok(&g, *r.sets.open@[0]));
            assert(r.sets.open_states()[0] == problem.spec_original_problem().spec_start_state());
            lemma_found_value::<S, SS, P>(problem, start_abstraction, estimated_total_cost);
            let e = r.spec_estimator();
            lemma_fresh_estimated(&e, r.sets);
        }
        r
    }

    /// Searches on to the next goal of the original problem (see `search_outcome`).
    pub fn next_path(&mut self) -> (result: Option<Rc<Node<S>>>)
        requires
            old(self).inv(),
        ensures
            final(self).inv(),
            final(self).spec_problem() == old(self).spec_problem(),
            search_outcome(
                &ProblemGraph { problem: old(self).spec_problem().spec_original_problem() },
                old(self).spec_problem().spec_original_problem().spec_start_state(),
                old(self).spec_sets(),
                final(self).spec_sets(),
                result,
            ),
            final(self).spec_estimator().problem == final(self).spec_problem(),
            final(self).spec_sets().estimated(&final(self).spec_estimator()),
            forall|k: SS| #[trigger] old(self).spec_cache().dom().contains(k) ==> final(self).spec_cache().dom().contains(k),
            final(self).spec_sets().closed@.len() > old(self).spec_sets().closed@.len() ==> exists|k: int|
                {
                    &&& #[trigger] picked(
                        old(self).spec_sets(),
                        k,
                        final(self).spec_sets().closed@[old(self).spec_sets().closed@.len() as int],
                    )
                    &&& final(self).spec_sets().closed@.len() == old(self).spec_sets().closed@.len() + 1 && result is Some
                        ==> final(self).spec_sets().open@ == old(self).spec_sets().open@.take(k)
                },
    {
        proof {
            self.problem.lemma_abstraction();
        }
        let graph = ProblemGraph { problem: self.problem.original_problem() };
        let mut cache = HeuristicCache::new();
        std::mem::swap(&mut cache, &mut self.cache);
        let mut estimator = HierarchicalEstimator { problem: self.problem, cache };
        proof {
            assert(estimator.cache@ == old(self).cache@);
        }
        let ghost sets0 = self.sets;
        proof {
            self.problem.spec_original_problem().lemma_state_space();
        }
        let result = next_path(&mut self.sets, &graph, &mut estimator);
        proof {
            let start = self.problem.spec_original_problem().spec_start_state();
            assert(graph.in_graph_space(start));
            assert(estimator.accepts(start));
        }
        self.cache = estimator.cache;
        proof {
            assert(estimator == self.spec_estimator());
            lemma_search_outcome(
                &graph,
                self.problem.spec_original_problem().spec_start_state(),
                sets0,
                self.sets,
                result,
            );
        }
        result
    }

    pub fn total_original_nodes_opened(&self) -> (r: usize)
        ensures
            r == self.spec_sets().open@.len(),
    {
        self.sets.open.len()
    }

    pub fn total_original_nodes_closed(&self) -> (r: usize)
        ensures
            r == self.spec_sets().closed@.len(),
    {
        self.sets.closed.len()
    }
}

} // verus!
