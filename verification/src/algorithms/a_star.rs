//! A* search: the open list is kept ordered by decreasing estimated total
//! cost and the node with the least estimate is expanded first; the closed
//! list holds every state already expanded, each at most once.
use vstd::prelude::*;
use std::rc::Rc;
use crate::algorithms::open_list::{sorted_by_estimate, sort_open, lemma_sort_by_estimate};
use vstd::std_specs::cmp::PartialEqSpecImpl;

verus! {

/// A search state. States are compared by value.
pub trait State: Sized {
    /// Whether two states are equal.
    fn same_state(&self, other: &Self) -> (r: bool)
        ensures
            r == (*self == *other);
}

/// The values behind a sequence of shared pointers.
pub open spec fn rc_values<S>(s: Seq<Rc<S>>) -> Seq<S> {
    s.map_values(|r: Rc<S>| *r)
}

/// `a + b`, or `u32::MAX` where the sum does not fit.
pub open spec fn sat_add(a: u32, b: u32) -> u32 {
    if a + b > u32::MAX { u32::MAX } else { (a + b) as u32 }
}

/// A search problem, implemented by its users.
///
/// Its states must lie in a finite space, given by an injective index below
/// `state_space_size`, which holds the start state and is closed under
/// `children`; this is what makes every search terminate.
pub trait Problem<S: State> {
    /// The problem is one that the search functions accept.
    spec fn well_posed(&self) -> bool;

    spec fn spec_children(&self, state: S) -> Seq<S>;

    spec fn spec_is_goal(&self, state: S) -> bool;

    spec fn spec_cost(&self, state: S) -> u32;

    spec fn spec_heuristic(&self, state: S) -> u32;

    spec fn spec_start_state(&self) -> S;

    spec fn in_state_space(&self, state: S) -> bool;

    /// The states that `children` and `heuristic` take; they include the state
    /// space. (`is_goal` and `cost` take any state.)
    spec fn in_domain(&self, state: S) -> bool;

    spec fn state_index(&self, state: S) -> nat;

    spec fn state_space_size(&self) -> nat;

    proof fn lemma_state_space(&self)
        requires
            self.well_posed(),
        ensures
            self.in_state_space(self.spec_start_state()),
            forall|s: S| #[trigger] self.in_state_space(s) ==> self.state_index(s) < self.state_space_size(),
            forall|s: S| #[trigger] self.in_state_space(s) ==> self.in_domain(s),
            forall|s: S, t: S|
                self.in_state_space(s) && self.in_state_space(t) && #[trigger] self.state_index(s)
                    == #[trigger] self.state_index(t) ==> s == t,
            forall|s: S, i: int|
                self.in_state_space(s) && 0 <= i < self.spec_children(s).len() ==> self.in_state_space(
                    #[trigger] self.spec_children(s)[i],
                ),
    ;

    /// The states reached from `state` in one step.
    fn children(&self, state: &S) -> (r: Vec<Rc<S>>)
        requires
            self.well_posed(),
            self.in_domain(*state),
        ensures
            rc_values(r@) == self.spec_children(*state),
    ;

    fn is_goal(&self, state: &S) -> (r: bool)
        requires
            self.well_posed(),
        ensures
            r == self.spec_is_goal(*state),
    ;

    /// The cost of the step that reaches `state`.
    fn cost(&self, state: &S) -> (r: u32)
        requires
            self.well_posed(),
        ensures
            r == self.spec_cost(*state),
    ;

    /// The estimated cost from `state` to a goal.
    fn heuristic(&self, state: &S) -> (r: u32)
        requires
            self.well_posed(),
            self.in_domain(*state),
        ensures
            r == self.spec_heuristic(*state),
    ;

    fn start_state(&self) -> (r: S)
        requires
            self.well_posed(),
        ensures
            r == self.spec_start_state(),
    ;
}

/// A finite graph that the search walks: the steps, their costs and the goals.
pub trait SearchGraph<S: State> {
    spec fn graph_ready(&self) -> bool;

    spec fn graph_children(&self, state: S) -> Seq<S>;

    spec fn graph_cost(&self, state: S) -> u32;

    spec fn graph_is_goal(&self, state: S) -> bool;

    spec fn in_graph_space(&self, state: S) -> bool;

    spec fn graph_index(&self, state: S) -> nat;

    spec fn graph_size(&self) -> nat;

    proof fn lemma_graph_space(&self)
        requires
            self.graph_ready(),
        ensures
            forall|s: S| #[trigger] self.in_graph_space(s) ==> self.graph_index(s) < self.graph_size(),
            forall|s: S, t: S|
                self.in_graph_space(s) && self.in_graph_space(t) && #[trigger] self.graph_index(s)
                    == #[trigger] self.graph_index(t) ==> s == t,
            forall|s: S, i: int|
                self.in_graph_space(s) && 0 <= i < self.graph_children(s).len() ==> self.in_graph_space(
                    #[trigger] self.graph_children(s)[i],
                ),
    ;

    fn expand(&self, state: &S) -> (r: Vec<Rc<S>>)
        requires
            self.graph_ready(),
            self.in_graph_space(*state),
        ensures
            rc_values(r@) == self.graph_children(*state),
    ;

    fn step_cost(&self, state: &S) -> (r: u32)
        requires
            self.graph_ready(),
            self.in_graph_space(*state),
        ensures
            r == self.graph_cost(*state),
    ;

    fn reached_goal(&self, state: &S) -> (r: bool)
        requires
            self.graph_ready(),
            self.in_graph_space(*state),
        ensures
            r == self.graph_is_goal(*state),
    ;
}

/// A source of heuristic estimates; it may keep state between calls.
pub trait Estimator<S: State> {
    /// What the estimates are drawn from, which estimating leaves unchanged.
    type Source;

    spec fn source(&self) -> Self::Source;

    /// The states that `estimate` accepts.
    spec fn accepts(&self, state: S) -> bool;

    /// `h` is an estimate that may be given for `state`; estimating does not
    /// change which.
    spec fn gives(&self, state: S, h: u32) -> bool;

    /// `later` keeps what this estimator has gathered (estimating only adds to it).
    spec fn kept_by(&self, later: &Self) -> bool;

    proof fn lemma_kept_by(&self, b: &Self, c: &Self)
        ensures
            self.kept_by(self),
            self.kept_by(b) && b.kept_by(c) ==> self.kept_by(c),
    ;

    fn estimate(&mut self, state: &S) -> (r: u32)
        requires
            old(self).accepts(*state),
        ensures
            forall|t: S| old(self).accepts(t) ==> #[trigger] final(self).accepts(t),
            final(self).source() == old(self).source(),
            old(self).gives(*state, r),
            forall|t: S, h: u32| #[trigger] final(self).gives(t, h) == old(self).gives(t, h),
            old(self).kept_by(final(self)),
    ;
}

/// The graph of a `Problem`.
pub struct ProblemGraph<'a, P> {
    pub problem: &'a P,
}

impl<'a, S: State, P: Problem<S>> SearchGraph<S> for ProblemGraph<'a, P> {
    open spec fn graph_ready(&self) -> bool {
        self.problem.well_posed()
    }

    open spec fn graph_children(&self, state: S) -> Seq<S> {
        self.problem.spec_children(state)
    }

    open spec fn graph_cost(&self, state: S) -> u32 {
        self.problem.spec_cost(state)
    }

    open spec fn graph_is_goal(&self, state: S) -> bool {
        self.problem.spec_is_goal(state)
    }

    open spec fn in_graph_space(&self, state: S) -> bool {
        self.problem.in_state_space(state)
    }

    open spec fn graph_index(&self, state: S) -> nat {
        self.problem.state_index(state)
    }

    open spec fn graph_size(&self) -> nat {
        self.problem.state_space_size()
    }

    proof fn lemma_graph_space(&self) {
        self.problem.lemma_state_space();
    }

    fn expand(&self, state: &S) -> (r: Vec<Rc<S>>) {
        proof {
            self.problem.lemma_state_space();
        }
        self.problem.children(state)
    }

    fn step_cost(&self, state: &S) -> (r: u32) {
        proof {
            self.problem.lemma_state_space();
        }
        self.problem.cost(state)
    }

    fn reached_goal(&self, state: &S) -> (r: bool) {
        proof {
            self.problem.lemma_state_space();
        }
        self.problem.is_goal(state)
    }
}

/// The heuristic of a `Problem`.
pub struct ProblemEstimator<'a, P> {
    pub problem: &'a P,
}

impl<'a, S: State, P: Problem<S>> Estimator<S> for ProblemEstimator<'a, P> {
    type Source = &'a P;

    open spec fn source(&self) -> &'a P {
        self.problem
    }

    open spec fn accepts(&self, state: S) -> bool {
        self.problem.well_posed() && self.problem.in_state_space(state)
    }

    open spec fn gives(&self, state: S, h: u32) -> bool {
        h == self.problem.spec_heuristic(state)
    }

    open spec fn kept_by(&self, later: &Self) -> bool {
        true
    }

    proof fn lemma_kept_by(&self, b: &Self, c: &Self) {
    }

    /// The problem's own heuristic of `state`; the estimator is left as it was.
    fn estimate(&mut self, state: &S) -> (r: u32)
        ensures
            r == old(self).problem.spec_heuristic(*state),
            *final(self) == *old(self),
    {
        proof {
            self.problem.lemma_state_space();
        }
        self.problem.heuristic(state)
    }
}

/// The estimator that estimates 0 for every state.
pub(crate) struct ZeroEstimator;

impl<S: State> Estimator<S> for ZeroEstimator {
    type Source = ();

    open spec fn source(&self) -> () {
        ()
    }

    open spec fn accepts(&self, state: S) -> bool {
        true
    }

    open spec fn gives(&self, state: S, h: u32) -> bool {
        h == 0
    }

    open spec fn kept_by(&self, later: &Self) -> bool {
        true
    }

    proof fn lemma_kept_by(&self, b: &Self, c: &Self) {
    }

    fn estimate(&mut self, state: &S) -> (r: u32) {
        0
    }
}

/// Estimates of 0 are consistent.
pub(crate) proof fn lemma_zero_consistent<S: State, G: SearchGraph<S>>(g: &G)
    ensures
        consistent(g, &ZeroEstimator),
{
    let z = ZeroEstimator;
    assert forall|s: S| #[trigger] g.in_graph_space(s) implies <ZeroEstimator as Estimator<S>>::gives(&z, s, estimate_of(&z, s)) by {
        assert(<ZeroEstimator as Estimator<S>>::gives(&z, s, 0));
    }
}

/// A node of the search: a state, the node it was reached from, the cost of
/// the path from the root, and that cost plus the heuristic estimate.
pub struct Node<S: State> {
    pub state: Rc<S>,
    pub parent: Option<Rc<Node<S>>>,
    pub cost_from_root: u32,
    pub estimated_total_cost: u32,
}

/// Nodes are equal when their states are.
impl<S: State> PartialEq for Node<S> {
    fn eq(&self, other: &Self) -> (r: bool) {
        self.state.same_state(&other.state)
    }
}

impl<S: State> PartialEqSpecImpl for Node<S> {
    open spec fn obeys_eq_spec() -> bool {
        true
    }

    open spec fn eq_spec(&self, other: &Node<S>) -> bool {
        *self.state == *other.state
    }
}

/// The state of the node that a chain of parents starts from.
pub open spec fn root_state<S: State>(node: Node<S>) -> S
    decreases node,
{
    match node.parent {
        None => *node.state,
        Some(p) => root_state(*p),
    }
}

/// The states from the root to `node`, in order.
pub open spec fn path_states<S: State>(node: Node<S>) -> Seq<S>
    decreases node,
{
    match node.parent {
        None => seq![*node.state],
        Some(p) => path_states(*p).push(*node.state),
    }
}

/// A node and all its ancestors lie in the graph's space, each is a child of
/// its parent, and each cost from the root adds the step's cost to the parent's
/// (saturating); a root costs 0, and no estimate is below its cost.
pub open spec fn node_ok<S: State, G: SearchGraph<S>>(g: &G, node: Node<S>) -> bool
    decreases node,
{
    &&& g.in_graph_space(*node.state)
    &&& node.cost_from_root <= node.estimated_total_cost
    &&& match node.parent {
        None => node.cost_from_root == 0,
        Some(p) => {
            &&& g.graph_children(*p.state).contains(*node.state)
            &&& node.cost_from_root == sat_add(p.cost_from_root, g.graph_cost(*node.state))
            &&& node_ok(g, *p)
        },
    }
}

/// `path` is a non-empty walk along the graph's steps.
pub open spec fn is_path<S: State, G: SearchGraph<S>>(g: &G, path: Seq<S>) -> bool {
    &&& path.len() > 0
    &&& forall|i: int| 0 < i < path.len() ==> g.graph_children(path[i - 1]).contains(#[trigger] path[i])
}

/// The saturating sum of the step costs along `path` (its first state costs nothing).
pub open spec fn path_cost<S: State, G: SearchGraph<S>>(g: &G, path: Seq<S>) -> u32
    decreases path.len(),
{
    if path.len() <= 1 {
        0
    } else {
        sat_add(path_cost(g, path.drop_last()), g.graph_cost(path.last()))
    }
}

/// The exact sum of the step costs along `path` (its first state costs nothing).
pub open spec fn path_sum<S: State, G: SearchGraph<S>>(g: &G, path: Seq<S>) -> nat
    decreases path.len(),
{
    if path.len() <= 1 {
        0
    } else {
        path_sum(g, path.drop_last()) + g.graph_cost(path.last()) as nat
    }
}

/// Law: a path's cost is its exact cost, or `u32::MAX` where that does not fit.
pub proof fn lemma_path_cost_saturates<S: State, G: SearchGraph<S>>(g: &G, path: Seq<S>)
    ensures
        path_cost(g, path) == if path_sum(g, path) > u32::MAX { u32::MAX as nat } else { path_sum(g, path) },
    decreases path.len(),
{
    if path.len() > 1 {
        lemma_path_cost_saturates(g, path.drop_last());
    }
}

/// Splitting a path at index `j`: the exact cost is that of the part up to `j`
/// plus that of the part from `j`, which is itself a path.
pub proof fn lemma_path_split<S: State, G: SearchGraph<S>>(g: &G, path: Seq<S>, j: int)
    requires
        0 <= j < path.len(),
    ensures
        path_sum(g, path) == path_sum(g, path.subrange(0, j + 1)) + path_sum(g, path.subrange(j, path.len() as int)),
        is_path(g, path) ==> is_path(g, path.subrange(j, path.len() as int)),
    decreases path.len(),
{
    let n = path.len() as int;
    if j == n - 1 {
        assert(path.subrange(0, j + 1) =~= path);
    } else {
        let shorter = path.drop_last();
        lemma_path_split(g, shorter, j);
        assert(shorter.subrange(0, j + 1) =~= path.subrange(0, j + 1));
        let tail = path.subrange(j, n);
        assert(tail.drop_last() =~= shorter.subrange(j, n - 1));
        assert(tail.last() == path.last());
    }
    if is_path(g, path) {
        let tail = path.subrange(j, n);
        assert forall|i: int| 0 < i < tail.len() implies g.graph_children(tail[i - 1]).contains(#[trigger] tail[i]) by {
            assert(tail[i] == path[j + i]);
            assert(tail[i - 1] == path[j + i - 1]);
        }
    }
}

/// The states of a sequence of nodes.
pub open spec fn states_of<S: State>(nodes: Seq<Rc<Node<S>>>) -> Seq<S> {
    nodes.map_values(|n: Rc<Node<S>>| *n.state)
}

/// Law: the chain of parents of a well-formed node is a path of the graph from
/// its root to its state, and its cost from the root is that path's cost.
pub proof fn lemma_node_path<S: State, G: SearchGraph<S>>(g: &G, node: Rc<Node<S>>)
    requires
        node_ok(g, *node),
    ensures
        is_path(g, path_states(*node)),
        path_states(*node)[0] == root_state(*node),
        path_states(*node).last() == *node.state,
        node.cost_from_root == path_cost(g, path_states(*node)),
    decreases node,
{
    match node.parent {
        None => {},
        Some(p) => {
            lemma_node_path(g, p);
            assert(path_states(*node).drop_last() =~= path_states(*p));
            assert forall|i: int| 0 < i < path_states(*node).len() implies g.graph_children(
                path_states(*node)[i - 1],
            ).contains(#[trigger] path_states(*node)[i]) by {
                if i < path_states(*node).len() - 1 {
                    assert(path_states(*node)[i] == path_states(*p)[i]);
                    assert(path_states(*node)[i - 1] == path_states(*p)[i - 1]);
                }
            }
        },
    }
}

pub struct AStarSets<S: State> {
    pub open: Vec<Rc<Node<S>>>,
    pub closed: Vec<Rc<Node<S>>>,
}

impl<S: State> AStarSets<S> {
    pub open spec fn open_states(&self) -> Seq<S> {
        states_of(self.open@)
    }

    pub open spec fn closed_states(&self) -> Seq<S> {
        states_of(self.closed@)
    }

    /// `s` is the state of a node in the open or the closed list.
    pub open spec fn has_state(&self, s: S) -> bool {
        self.open_states().contains(s) || self.closed_states().contains(s)
    }

    pub open spec fn nodes_ok<G: SearchGraph<S>>(&self, g: &G) -> bool {
        &&& forall|i: int| 0 <= i < self.open@.len() ==> node_ok(g, *#[trigger] self.open@[i])
        &&& forall|i: int| 0 <= i < self.closed@.len() ==> node_ok(g, *#[trigger] self.closed@[i])
    }

    /// Every closed state that is not a goal has all its children in the open
    /// or the closed list.
    pub open spec fn expanded<G: SearchGraph<S>>(&self, g: &G) -> bool {
        forall|i: int| 0 <= i < self.closed@.len() ==> self.expanded_state(g, #[trigger] self.closed_states()[i])
    }

    /// `s` is a goal, or all its children are held in the open or the closed list.
    pub open spec fn expanded_state<G: SearchGraph<S>>(&self, g: &G, s: S) -> bool {
        g.graph_is_goal(s) || forall|k: int|
            0 <= k < g.graph_children(s).len() ==> self.has_state(#[trigger] g.graph_children(s)[k])
    }

    /// Every node's chain visits no state twice, and its proper ancestors are closed.
    pub open spec fn chains_ok(&self) -> bool {
        &&& forall|i: int| 0 <= i < self.open@.len() ==> chain_closed(*#[trigger] self.open@[i], self.closed_states())
        &&& forall|i: int|
            0 <= i < self.closed@.len() ==> chain_closed(*#[trigger] self.closed@[i], self.closed_states())
    }

    /// The invariant of the search: well-formed nodes, no state closed twice,
    /// closed states expanded, simple chains, and the open list ordered by
    /// decreasing estimate.
    pub open spec fn wf<G: SearchGraph<S>>(&self, g: &G) -> bool {
        &&& self.nodes_ok(g)
        &&& self.closed_states().no_duplicates()
        &&& self.expanded(g)
        &&& self.chains_ok()
        &&& sorted_by_estimate(self.open@)
    }

    /// The estimate of every node that has a parent, and of each such ancestor,
    /// is its cost plus an estimate given by `h` (roots may carry any estimate).
    pub open spec fn estimated<H: Estimator<S>>(&self, h: &H) -> bool {
        &&& forall|n: Rc<Node<S>>| #[trigger] self.open@.contains(n) ==> chain_estimated(h, *n)
        &&& forall|n: Rc<Node<S>>| #[trigger] self.closed@.contains(n) ==> chain_estimated(h, *n)
    }

    /// Every node descends from a root with state `r`.
    pub open spec fn rooted_at(&self, r: S) -> bool {
        &&& forall|i: int| 0 <= i < self.open@.len() ==> root_state(*#[trigger] self.open@[i]) == r
        &&& forall|i: int| 0 <= i < self.closed@.len() ==> root_state(*#[trigger] self.closed@[i]) == r
    }

    pub fn new() -> (r: Self)
        ensures
            r.open@.len() == 0,
            r.closed@.len() == 0,
    {
        AStarSets { open: Vec::new(), closed: Vec::new() }
    }

    /// Adds the root node of a search to the open list.
    pub fn create_and_add_first_node(&mut self, start_state: S, estimated_total_cost: u32)
        ensures
            final(self).closed@ == old(self).closed@,
            final(self).open@.len() == old(self).open@.len() + 1,
            final(self).open@.drop_last() == old(self).open@,
            *final(self).open@.last() == first_node(start_state, estimated_total_cost),
    {
        let start_node = create_first_node(start_state, estimated_total_cost);
        self.add_open_node(start_node);
        assert(self.open@.drop_last() =~= old(self).open@);
    }

    /// Appends `node` to the open list.
    pub fn add_open_node(&mut self, node: Node<S>)
        ensures
            final(self).closed@ == old(self).closed@,
            final(self).open@ == old(self).open@.push(Rc::new(node)),
    {
        self.open.push(Rc::new(node))
    }
}

/// The chain of states of the node behind `n`.
pub open spec fn chain_of<S: State>(n: &Rc<Node<S>>) -> Seq<S> {
    path_states(**n)
}

/// The chain of `n` visits no state twice, and the state of each proper
/// ancestor of `n` is in `closed`.
pub open spec fn chain_closed<S: State>(n: Node<S>, closed: Seq<S>) -> bool {
    &&& path_states(n).no_duplicates()
    &&& forall|j: int| 0 <= j < path_states(n).len() - 1 ==> closed.contains(#[trigger] path_states(n)[j])
}

proof fn lemma_chain_grow<S: State>(n: Node<S>, a: Seq<S>, b: Seq<S>)
    requires
        chain_closed(n, a),
        forall|t: S| #[trigger] a.contains(t) ==> b.contains(t),
    ensures
        chain_closed(n, b),
{
    assert forall|j: int| 0 <= j < path_states(n).len() - 1 implies b.contains(#[trigger] path_states(n)[j]) by {
        assert(a.contains(path_states(n)[j]));
    }
}

/// The node that a round closes: the node at index `k` of the open list of
/// `sets`, whose state is not closed, all nodes after it having closed states.
/// The open list being ordered by decreasing estimate, it is a node of least
/// estimate among those whose state is not closed.
pub open spec fn picked<S: State>(sets: AStarSets<S>, k: int, n: Rc<Node<S>>) -> bool {
    &&& 0 <= k < sets.open@.len()
    &&& sets.open@[k] == n
    &&& !sets.closed_states().contains(*n.state)
    &&& forall|j: int| k < j < sets.open@.len() ==> sets.closed_states().contains(#[trigger] sets.open_states()[j])
}

/// The estimate of `node` is its cost from the root plus an estimate that `h`
/// gives for its state (saturating at `u32::MAX`).
pub open spec fn estimated_by<S: State, H: Estimator<S>>(h: &H, node: Node<S>) -> bool {
    exists|v: u32| #[trigger] h.gives(*node.state, v) && node.estimated_total_cost == sat_add(node.cost_from_root, v)
}

/// `node`, if it has a parent, and each of its ancestors that has one, is
/// estimated by `h`.
pub open spec fn chain_estimated<S: State, H: Estimator<S>>(h: &H, node: Node<S>) -> bool
    decreases node,
{
    match node.parent {
        None => true,
        Some(p) => estimated_by(h, node) && chain_estimated(h, *p),
    }
}

proof fn lemma_chain_estimated_same<S: State, H: Estimator<S>>(h1: &H, h2: &H, node: Rc<Node<S>>)
    requires
        forall|t: S, v: u32| #[trigger] h2.gives(t, v) == h1.gives(t, v),
        chain_estimated(h1, *node),
    ensures
        chain_estimated(h2, *node),
    decreases node,
{
    match node.parent {
        None => {},
        Some(p) => {
            let v = choose|v: u32| #[trigger] h1.gives(*node.state, v) && node.estimated_total_cost == sat_add(
                node.cost_from_root,
                v,
            );
            assert(h2.gives(*node.state, v));
            lemma_chain_estimated_same(h1, h2, p);
        },
    }
}

/// Lists of a single root are estimated by any estimator.
pub proof fn lemma_fresh_estimated<S: State, H: Estimator<S>>(h: &H, sets: AStarSets<S>)
    requires
        fresh(sets),
    ensures
        sets.estimated(h),
{
    assert forall|n: Rc<Node<S>>| #[trigger] sets.open@.contains(n) implies chain_estimated(h, *n) by {
        assert(n == sets.open@[0]);
    }
}

pub(crate) proof fn lemma_estimated_same<S: State, H: Estimator<S>>(h1: &H, h2: &H, sets: AStarSets<S>)
    requires
        forall|t: S, v: u32| #[trigger] h2.gives(t, v) == h1.gives(t, v),
        sets.estimated(h1),
    ensures
        sets.estimated(h2),
{
    assert forall|n: Rc<Node<S>>| #[trigger] sets.open@.contains(n) implies chain_estimated(h2, *n) by {
        lemma_chain_estimated_same(h1, h2, n);
    }
    assert forall|n: Rc<Node<S>>| #[trigger] sets.closed@.contains(n) implies chain_estimated(h2, *n) by {
        lemma_chain_estimated_same(h1, h2, n);
    }
}

pub(crate) proof fn lemma_estimated_select<S: State, H: Estimator<S>>(
    h: &H,
    before: AStarSets<S>,
    base: AStarSets<S>,
    c: Rc<Node<S>>,
)
    requires
        before.estimated(h),
        base.open@.is_prefix_of(before.open@),
        base.closed@ == before.closed@.push(c),
        before.open@.contains(c),
    ensures
        base.estimated(h),
{
    assert forall|n: Rc<Node<S>>| #[trigger] base.open@.contains(n) implies chain_estimated(h, *n) by {
        let i = choose|i: int| 0 <= i < base.open@.len() && base.open@[i] == n;
        assert(before.open@[i] == n);
        assert(before.open@.contains(n));
    }
    assert forall|n: Rc<Node<S>>| #[trigger] base.closed@.contains(n) implies chain_estimated(h, *n) by {
        let i = choose|i: int| 0 <= i < base.closed@.len() && base.closed@[i] == n;
        if i < before.closed@.len() {
            assert(before.closed@[i] == n);
            assert(before.closed@.contains(n));
        }
    }
}

/// The root node for `state`: no parent, cost 0, the given estimate.
pub open spec fn first_node<S: State>(state: S, cost_estimation: u32) -> Node<S> {
    Node { state: Rc::new(state), parent: None, cost_from_root: 0, estimated_total_cost: cost_estimation }
}

pub fn create_first_node<S: State>(state: S, cost_estimation: u32) -> (r: Node<S>)
    ensures
        r == first_node(state, cost_estimation),
{
    Node { state: Rc::new(state), parent: None, cost_from_root: 0, estimated_total_cost: cost_estimation }
}

/// Whether a node of `nodes` has the state `state`.
fn contains_state<S: State>(nodes: &Vec<Rc<Node<S>>>, state: &S) -> (r: bool)
    ensures
        r == states_of(nodes@).contains(*state),
{
    let mut i: usize = 0;
    while i < nodes.len()
        invariant
            i <= nodes@.len(),
            forall|j: int| 0 <= j < i ==> states_of(nodes@)[j] != *state,
        decreases nodes@.len() - i,
    {
        if nodes[i].state.same_state(state) {
            assert(states_of(nodes@)[i as int] == *state);
            return true;
        }
        i = i + 1;
    }
    false
}

/// Law: `x * w + y` with `y < w` determines `x` and `y` (indices of a
/// two-dimensional space are injective).
pub proof fn lemma_index_injective(x1: nat, y1: nat, x2: nat, y2: nat, w: nat)
    requires
        y1 < w,
        y2 < w,
        x1 * w + y1 == x2 * w + y2,
    ensures
        x1 == x2,
        y1 == y2,
{
    if x1 < x2 {
        assert(x1 * w + y1 < x2 * w) by (nonlinear_arith)
            requires
                x1 < x2,
                y1 < w,
        ;
    } else if x2 < x1 {
        assert(x2 * w + y2 < x1 * w) by (nonlinear_arith)
            requires
                x2 < x1,
                y2 < w,
        ;
    }
}

/// Law: the index `x * ys + y` of a point of `[0, xs) x [0, ys)` is below `xs * ys`.
pub proof fn lemma_index_bound(x: nat, y: nat, xs: nat, ys: nat)
    requires
        x < xs,
        y < ys,
    ensures
        x * ys + y < xs * ys,
{
    assert(x * ys + y < xs * ys) by (nonlinear_arith)
        requires
            x < xs,
            y < ys,
    ;
}

/// Distinct states of a finite graph's space are no more than its size.
proof fn lemma_distinct_states_bounded<S: State, G: SearchGraph<S>>(g: &G, states: Seq<S>)
    requires
        g.graph_ready(),
        states.no_duplicates(),
        forall|i: int| 0 <= i < states.len() ==> g.in_graph_space(#[trigger] states[i]),
    ensures
        states.len() <= g.graph_size(),
{
    g.lemma_graph_space();
    let idx = states.map_values(|s: S| g.graph_index(s) as int);
    assert forall|i: int, j: int| 0 <= i < idx.len() && 0 <= j < idx.len() && i != j implies idx[i]
        != idx[j] by {
        if idx[i] == idx[j] {
            assert(g.graph_index(states[i]) == g.graph_index(states[j]));
            assert(g.in_graph_space(states[i]));
            assert(g.in_graph_space(states[j]));
        }
    }
    assert(idx.no_duplicates());
    idx.unique_seq_to_set();
    let range = vstd::set_lib::set_int_range(0, g.graph_size() as int);
    vstd::set_lib::lemma_int_range(0, g.graph_size() as int);
    assert forall|x: int| idx.to_set().contains(x) implies range.contains(x) by {
        let i = choose|i: int| 0 <= i < idx.len() && idx[i] == x;
        assert(g.in_graph_space(states[i]));
    }
    vstd::set_lib::lemma_len_subset(idx.to_set(), range);
}

/// Two sequences with the same elements (counted) hold the same nodes and the same states.
proof fn lemma_same_nodes<S: State>(a: Seq<Rc<Node<S>>>, b: Seq<Rc<Node<S>>>)
    requires
        a.to_multiset() =~= b.to_multiset(),
    ensures
        forall|x: Rc<Node<S>>| a.contains(x) <==> b.contains(x),
        forall|s: S| states_of(a).contains(s) <==> states_of(b).contains(s),
{
    broadcast use vstd::seq_lib::group_to_multiset_ensures;
    assert forall|x: Rc<Node<S>>| a.contains(x) <==> b.contains(x) by {
        assert(a.contains(x) <==> a.to_multiset().count(x) > 0);
        assert(b.contains(x) <==> b.to_multiset().count(x) > 0);
    }
    assert forall|s: S| states_of(a).contains(s) implies states_of(b).contains(s) by {
        let i = choose|i: int| 0 <= i < states_of(a).len() && states_of(a)[i] == s;
        assert(a.contains(a[i]));
        let j = choose|j: int| 0 <= j < b.len() && b[j] == a[i];
        assert(states_of(b)[j] == s);
    }
    assert forall|s: S| states_of(b).contains(s) implies states_of(a).contains(s) by {
        let i = choose|i: int| 0 <= i < states_of(b).len() && states_of(b)[i] == s;
        assert(b.contains(b[i]));
        let j = choose|j: int| 0 <= j < a.len() && a[j] == b[i];
        assert(states_of(a)[j] == s);
    }
}

/// A state stays expanded while the lists only gain states.
proof fn lemma_expanded_kept<S: State, G: SearchGraph<S>>(
    g: &G,
    before: AStarSets<S>,
    after: AStarSets<S>,
)
    requires
        forall|t: S| #[trigger] before.has_state(t) ==> after.has_state(t),
    ensures
        forall|s: S| #[trigger] before.expanded_state(g, s) ==> after.expanded_state(g, s),
{
    assert forall|s: S| #[trigger] before.expanded_state(g, s) implies after.expanded_state(g, s) by {
        if !g.graph_is_goal(s) {
            assert forall|k: int| 0 <= k < g.graph_children(s).len() implies after.has_state(
                #[trigger] g.graph_children(s)[k],
            ) by {
                assert(before.has_state(g.graph_children(s)[k]));
            }
        }
    }
}

/// From `before` to `after` the closed list only grew, no held state was
/// lost, and every node still descends from the same root.
pub open spec fn search_progress<S: State>(before: AStarSets<S>, after: AStarSets<S>) -> bool {
    &&& before.closed@.is_prefix_of(after.closed@)
    &&& forall|t: S| #[trigger] before.has_state(t) ==> after.has_state(t)
    &&& forall|r: S| #[trigger] before.rooted_at(r) ==> after.rooted_at(r)
}

/// The closed states from index `from` on are not goals.
pub open spec fn closed_non_goals<S: State, G: SearchGraph<S>>(g: &G, sets: AStarSets<S>, from: int) -> bool {
    forall|i: int| from <= i < sets.closed@.len() ==> !g.graph_is_goal(#[trigger] sets.closed_states()[i])
}

/// Law: progress of a search over two stretches is progress over both.
pub proof fn lemma_progress_trans<S: State>(a: AStarSets<S>, b: AStarSets<S>, c: AStarSets<S>)
    requires
        search_progress(a, b),
        search_progress(b, c),
    ensures
        search_progress(a, c),
{
    assert forall|t: S| #[trigger] a.has_state(t) implies c.has_state(t) by {
        assert(b.has_state(t));
    }
    assert forall|r: S| #[trigger] a.rooted_at(r) implies c.rooted_at(r) by {
        assert(b.rooted_at(r));
    }
    assert(a.closed@.is_prefix_of(c.closed@)) by {
        assert forall|i: int| 0 <= i < a.closed@.len() implies a.closed@[i] == c.closed@[i] by {
            assert(a.closed@[i] == b.closed@[i]);
        }
    }
}

/// What holds once a round of the search has closed `current` (the last closed
/// node), starting from the well-formed lists `before`.
pub open spec fn round_start<S: State, G: SearchGraph<S>>(
    g: &G,
    before: AStarSets<S>,
    base: AStarSets<S>,
    current: Rc<Node<S>>,
) -> bool {
    &&& base.closed@ == before.closed@.push(current)
    &&& !before.closed_states().contains(*current.state)
    &&& base.open@.is_prefix_of(before.open@)
    &&& sorted_by_estimate(base.open@)
    &&& base.nodes_ok(g)
    &&& base.chains_ok()
    &&& node_ok(g, *current)
    &&& before.open@.contains(current)
    &&& base.closed_states().no_duplicates()
    &&& base.closed@.len() <= g.graph_size()
    &&& search_progress(before, base)
    &&& forall|i: int|
        0 <= i < before.closed@.len() ==> base.expanded_state(g, #[trigger] base.closed_states()[i])
}

/// While `current`'s children are added: the closed list is that of `base`,
/// the open list extends that of `base` with children of `current`, all well formed.
pub open spec fn round_ok<S: State, G: SearchGraph<S>>(
    g: &G,
    base: AStarSets<S>,
    current: Rc<Node<S>>,
    sets: AStarSets<S>,
) -> bool {
    &&& sets.closed@ == base.closed@
    &&& base.closed@.len() > 0
    &&& base.closed@.last() == current
    &&& node_ok(g, *current)
    &&& base.open@.is_prefix_of(sets.open@)
    &&& sets.nodes_ok(g)
    &&& sets.chains_ok()
    &&& chain_closed(*current, sets.closed_states())
    &&& forall|i: int|
        base.open@.len() <= i < sets.open@.len() ==> (#[trigger] sets.open@[i]).parent == Some(current)
}

/// Pops nodes off the open list until one whose state is not closed, and closes
/// it; `None` when the open list runs out first.
pub fn select_node<S: State, G: SearchGraph<S>>(sets: &mut AStarSets<S>, graph: &G) -> (r: Option<Rc<Node<S>>>)
    requires
        graph.graph_ready(),
        old(sets).wf(graph),
    ensures
        match r {
            None => {
                &&& final(sets).wf(graph)
                &&& final(sets).open@.len() == 0
                &&& final(sets).closed@ == old(sets).closed@
                &&& search_progress(*old(sets), *final(sets))
                &&& forall|j: int|
                    0 <= j < old(sets).open@.len() ==> old(sets).closed_states().contains(
                        #[trigger] old(sets).open_states()[j],
                    )
            },
            Some(c) => {
                &&& round_start(graph, *old(sets), *final(sets), c)
                &&& final(sets).closed@ == old(sets).closed@.push(c)
                &&& exists|k: int| picked(*old(sets), k, c) && final(sets).open@ == old(sets).open@.take(k)
            },
        },
{
    let ghost start = *sets;
    proof {
        graph.lemma_graph_space();
    }
    loop
        invariant
            graph.graph_ready(),
            sets.wf(graph),
            start == *old(sets),
            sets.closed@ == start.closed@,
            sets.open@.is_prefix_of(start.open@),
            search_progress(start, *sets),
            forall|j: int|
                sets.open@.len() <= j < start.open@.len() ==> start.closed_states().contains(
                    #[trigger] start.open_states()[j],
                ),
        decreases sets.open@.len(),
    {
        let ghost sets0 = *sets;
        let ghost open0 = sets.open@;
        let current = match sets.open.pop() {
            Some(n) => n,
            None => {
                return None;
            },
        };
        let ghost open1 = sets.open@;
        proof {
            assert(open1 =~= open0.drop_last());
            assert(current == open0.last());
            assert(node_ok(graph, *open0[open0.len() - 1]));
            assert(root_state(*open0[open0.len() - 1]) == root_state(*current));
            assert(sets.open@.is_prefix_of(start.open@)) by {
                assert forall|i: int| 0 <= i < open1.len() implies open1[i] == start.open@[i] by {
                    assert(open1[i] == open0[i]);
                }
            }
            assert forall|i: int| 0 <= i < sets.open@.len() implies node_ok(graph, *#[trigger] sets.open@[i]) by {
                assert(sets.open@[i] == open0[i]);
            }
            assert(open0[open0.len() - 1] == start.open@[open0.len() - 1]);
            assert(start.open_states()[open0.len() - 1] == *current.state);
        }
        if contains_state(&sets.closed, &current.state) {
            proof {
                assert forall|i: int| 0 <= i < sets.open@.len() implies chain_closed(
                    *#[trigger] sets.open@[i],
                    sets.closed_states(),
                ) by {
                    assert(sets.open@[i] == open0[i]);
                }
                assert forall|j: int| sets.open@.len() <= j < start.open@.len() implies start.closed_states().contains(
                    #[trigger] start.open_states()[j],
                ) by {
                    if j == open1.len() {
                        assert(start.closed_states() =~= sets.closed_states());
                    }
                }
                assert(sorted_by_estimate(open1));
                assert forall|t: S| #[trigger] sets0.has_state(t) implies sets.has_state(t) by {
                    if states_of(open0).contains(t) {
                        let j = choose|j: int| 0 <= j < states_of(open0).len() && states_of(open0)[j] == t;
                        if j < open1.len() {
                            assert(states_of(open1)[j] == t);
                        }
                    }
                }
                lemma_expanded_kept(graph, sets0, *sets);
                assert forall|i: int| 0 <= i < sets.closed@.len() implies sets.expanded_state(
                    graph,
                    #[trigger] sets.closed_states()[i],
                ) by {
                    assert(sets0.expanded_state(graph, sets0.closed_states()[i]));
                }
                assert forall|r: S| #[trigger] sets0.rooted_at(r) implies sets.rooted_at(r) by {
                    assert forall|i: int| 0 <= i < sets.open@.len() implies root_state(*#[trigger] sets.open@[i]) == r by {
                        assert(sets.open@[i] == open0[i]);
                    }
                }
                lemma_progress_trans(start, sets0, *sets);
            }
            continue;
        }
        let ghost closed0 = sets.closed@;
        sets.closed.push(rc_clone(&current));
        proof {
            let cs = sets.closed_states();
            assert(cs =~= states_of(closed0).push(*current.state));
            assert forall|i: int, j: int| 0 <= i < cs.len() && 0 <= j < cs.len() && i != j implies cs[i]
                != cs[j] by {
                if i == cs.len() - 1 {
                    assert(states_of(closed0)[j] == cs[j]);
                } else if j == cs.len() - 1 {
                    assert(states_of(closed0)[i] == cs[i]);
                }
            }
            assert forall|i: int| 0 <= i < cs.len() implies graph.in_graph_space(#[trigger] cs[i]) by {
                if i < closed0.len() {
                    assert(sets.closed@[i] == closed0[i]);
                    assert(node_ok(graph, *closed0[i]));
                }
            }
            lemma_distinct_states_bounded(graph, cs);
            assert forall|t: S| #[trigger] sets0.has_state(t) implies sets.has_state(t) by {
                if states_of(open0).contains(t) {
                    let j = choose|j: int| 0 <= j < states_of(open0).len() && states_of(open0)[j] == t;
                    if j < open1.len() {
                        assert(states_of(open1)[j] == t);
                    } else {
                        assert(cs[cs.len() - 1] == t);
                    }
                } else {
                    let j = choose|j: int| 0 <= j < states_of(closed0).len() && states_of(closed0)[j] == t;
                    assert(cs[j] == t);
                }
            }
            lemma_expanded_kept(graph, sets0, *sets);
            assert forall|i: int| 0 <= i < sets.closed@.len() implies node_ok(graph, *#[trigger] sets.closed@[i]) by {
                if i < closed0.len() {
                    assert(sets.closed@[i] == closed0[i]);
                }
            }
            assert forall|i: int| 0 <= i < closed0.len() implies sets.expanded_state(
                graph,
                #[trigger] sets.closed_states()[i],
            ) by {
                assert(sets.closed_states()[i] == sets0.closed_states()[i]);
                assert(sets0.expanded_state(graph, sets0.closed_states()[i]));
            }
            assert forall|r: S| #[trigger] sets0.rooted_at(r) implies sets.rooted_at(r) by {
                assert forall|i: int| 0 <= i < sets.open@.len() implies root_state(*#[trigger] sets.open@[i]) == r by {
                    assert(sets.open@[i] == open0[i]);
                }
                assert forall|i: int| 0 <= i < sets.closed@.len() implies root_state(*#[trigger] sets.closed@[i]) == r by {
                    if i < closed0.len() {
                        assert(sets.closed@[i] == closed0[i]);
                    }
                }
            }
            assert(sets0.closed@.is_prefix_of(sets.closed@));
            lemma_progress_trans(start, sets0, *sets);
            assert(!start.closed_states().contains(*current.state)) by {
                assert(start.closed_states() =~= states_of(closed0));
            }
            assert(forall|t: S| #[trigger] states_of(closed0).contains(t) ==> cs.contains(t)) by {
                assert forall|t: S| #[trigger] states_of(closed0).contains(t) implies cs.contains(t) by {
                    let j = choose|j: int| 0 <= j < states_of(closed0).len() && states_of(closed0)[j] == t;
                    assert(cs[j] == t);
                }
            }
            assert forall|i: int| 0 <= i < sets.open@.len() implies chain_closed(
                *#[trigger] sets.open@[i],
                sets.closed_states(),
            ) by {
                assert(sets.open@[i] == open0[i]);
                lemma_chain_grow(*open0[i], states_of(closed0), cs);
            }
            assert forall|i: int| 0 <= i < sets.closed@.len() implies chain_closed(
                *#[trigger] sets.closed@[i],
                sets.closed_states(),
            ) by {
                if i < closed0.len() {
                    assert(sets.closed@[i] == closed0[i]);
                    lemma_chain_grow(*closed0[i], states_of(closed0), cs);
                } else {
                    lemma_chain_grow(*open0[open0.len() - 1], states_of(closed0), cs);
                }
            }
            let k = open1.len() as int;
            assert(open1 =~= start.open@.take(k)) by {
                assert forall|i: int| 0 <= i < k implies open1[i] == start.open@[i] by {
                    assert(open1[i] == open0[i]);
                }
            }
            assert(start.open@.contains(current)) by {
                assert(start.open@[k] == current);
            }
            assert(picked(start, k, current));
        }
        return Some(current);
    }
}

/// Adds a node for `child` (a child of `current`) to the open list unless its
/// state is closed; its cost adds the step cost `g` to `current`'s and its
/// estimate adds `h`, both saturating at `u32::MAX`.
pub(crate) fn add_child<S: State, G: SearchGraph<S>>(
    sets: &mut AStarSets<S>,
    graph: &G,
    Ghost(base): Ghost<AStarSets<S>>,
    current: &Rc<Node<S>>,
    child: Rc<S>,
    g: u32,
    h: u32,
)
    requires
        round_ok(graph, base, *current, *old(sets)),
        graph.graph_children(*current.state).contains(*child),
        graph.in_graph_space(*child),
        g == graph.graph_cost(*child),
    ensures
        round_ok(graph, base, *current, *final(sets)),
        final(sets).has_state(*child),
        forall|t: S| #[trigger] old(sets).has_state(t) ==> final(sets).has_state(t),
        forall|n: Rc<Node<S>>|
            #[trigger] final(sets).open@.contains(n) ==> old(sets).open@.contains(n) || (*n.state == *child
                && n.estimated_total_cost == sat_add(n.cost_from_root, h)),
        old(sets).closed_states().contains(*child) ==> final(sets).open@ == old(sets).open@,
        !old(sets).closed_states().contains(*child) ==> {
            &&& final(sets).open@.len() == old(sets).open@.len() + 1
            &&& final(sets).open@.drop_last() == old(sets).open@
            &&& *final(sets).open@.last().state == *child
            &&& final(sets).open@.last().cost_from_root == sat_add(current.cost_from_root, g)
        },
{
    let cost_from_root = current.cost_from_root.saturating_add(g);
    let estimated_total_cost = cost_from_root.saturating_add(h);
    let child_node = Rc::new(
        Node { state: child, parent: Some(rc_clone(current)), cost_from_root, estimated_total_cost },
    );
    proof {
        assert(node_ok(graph, *child_node));
    }
    let ghost open2 = sets.open@;
    if !contains_state(&sets.closed, &child_node.state) {
        proof {
            let pc = chain_of(current);
            let cl = sets.closed_states();
            assert(path_states(*child_node) =~= pc.push(*child));
            assert(cl[cl.len() - 1] == *current.state);
            assert forall|j: int| 0 <= j < pc.len() implies cl.contains(#[trigger] pc[j]) by {
                if j == pc.len() - 1 {
                    lemma_node_path(graph, *current);
                }
            }
            assert(chain_closed(*child_node, cl)) by {
                assert forall|a: int, b: int|
                    0 <= a < pc.push(*child).len() && 0 <= b < pc.push(*child).len() && a != b implies pc.push(
                    *child,
                )[a] != pc.push(*child)[b] by {
                    if a == pc.len() {
                        assert(cl.contains(pc[b]));
                    } else if b == pc.len() {
                        assert(cl.contains(pc[a]));
                    }
                }
            }
        }
        sets.open.push(child_node);
        proof {
            assert(states_of(sets.open@)[sets.open@.len() - 1] == *child);
        }
    }
    proof {
        assert forall|t: S| #[trigger] old(sets).has_state(t) implies sets.has_state(t) by {
            if states_of(open2).contains(t) {
                let j = choose|j: int| 0 <= j < states_of(open2).len() && states_of(open2)[j] == t;
                assert(states_of(sets.open@)[j] == t);
            }
        }
        assert forall|i: int| 0 <= i < sets.open@.len() implies node_ok(graph, *#[trigger] sets.open@[i]) by {
            if i < open2.len() {
                assert(sets.open@[i] == open2[i]);
            }
        }
        assert forall|i: int| 0 <= i < sets.open@.len() implies chain_closed(
            *#[trigger] sets.open@[i],
            sets.closed_states(),
        ) by {
            if i < open2.len() {
                assert(sets.open@[i] == open2[i]);
            }
        }
        assert forall|n: Rc<Node<S>>| #[trigger] sets.open@.contains(n) implies open2.contains(n) || (*n.state
            == *child && n.estimated_total_cost == sat_add(n.cost_from_root, h)) by {
            let i = choose|i: int| 0 <= i < sets.open@.len() && sets.open@[i] == n;
            if i < open2.len() {
                assert(open2[i] == n);
            }
        }
        assert forall|i: int| base.open@.len() <= i < sets.open@.len() implies (#[trigger] sets.open@[i]).parent
            == Some(*current) by {
            if i < open2.len() {
                assert(sets.open@[i] == open2[i]);
            }
        }
        assert(base.open@.is_prefix_of(sets.open@)) by {
            assert forall|i: int| 0 <= i < base.open@.len() implies base.open@[i] == sets.open@[i] by {
                assert(open2[i] == base.open@[i]);
            }
        }
    }
}

/// Ends a round in which `current`, not a goal, was expanded: sorts the open list.
pub(crate) fn finish_round<S: State, G: SearchGraph<S>>(
    sets: &mut AStarSets<S>,
    graph: &G,
    Ghost(before): Ghost<AStarSets<S>>,
    Ghost(base): Ghost<AStarSets<S>>,
    Ghost(current): Ghost<Rc<Node<S>>>,
)
    requires
        before.wf(graph),
        round_start(graph, before, base, current),
        round_ok(graph, base, current, *old(sets)),
        !graph.graph_is_goal(*current.state),
        forall|k: int|
            0 <= k < graph.graph_children(*current.state).len() ==> old(sets).has_state(
                #[trigger] graph.graph_children(*current.state)[k],
            ),
        forall|t: S| #[trigger] base.has_state(t) ==> old(sets).has_state(t),
    ensures
        final(sets).wf(graph),
        final(sets).closed@ == base.closed@,
        search_progress(before, *final(sets)),
        forall|n: Rc<Node<S>>| #[trigger] final(sets).open@.contains(n) <==> old(sets).open@.contains(n),
{
    let ghost sets3 = *sets;
    let ghost open3 = sets.open@;
    proof {
        lemma_expanded_kept(graph, base, *sets);
    }
    sort_open(&mut sets.open);
    proof {
        lemma_sort_by_estimate(open3);
        lemma_same_nodes(open3, sets.open@);
        assert forall|t: S| #[trigger] sets3.has_state(t) implies sets.has_state(t) by {
            if states_of(open3).contains(t) {
                assert(states_of(sets.open@).contains(t));
            }
        }
        lemma_expanded_kept(graph, sets3, *sets);
        assert forall|i: int| 0 <= i < sets.open@.len() implies node_ok(graph, *#[trigger] sets.open@[i]) by {
            assert(sets.open@.contains(sets.open@[i]));
            assert(open3.contains(sets.open@[i]));
        }
        assert forall|i: int| 0 <= i < sets.open@.len() implies chain_closed(
            *#[trigger] sets.open@[i],
            sets.closed_states(),
        ) by {
            assert(sets.open@.contains(sets.open@[i]));
            assert(open3.contains(sets.open@[i]));
            let j = choose|j: int| 0 <= j < open3.len() && open3[j] == sets.open@[i];
            assert(chain_closed(*open3[j], sets3.closed_states()));
        }
        let cs = sets.closed_states();
        assert forall|i: int| 0 <= i < sets.closed@.len() implies sets.expanded_state(graph, #[trigger] cs[i]) by {
            if i < before.closed@.len() {
                assert(cs[i] == base.closed_states()[i]);
                assert(base.expanded_state(graph, base.closed_states()[i]));
                assert(sets3.expanded_state(graph, base.closed_states()[i]));
            } else {
                assert(cs[i] == *current.state);
                assert forall|k: int| 0 <= k < graph.graph_children(cs[i]).len() implies sets.has_state(
                    #[trigger] graph.graph_children(cs[i])[k],
                ) by {
                    assert(sets3.has_state(graph.graph_children(cs[i])[k]));
                }
            }
        }
        assert forall|t: S| #[trigger] before.has_state(t) implies sets.has_state(t) by {
            assert(base.has_state(t));
            assert(sets3.has_state(t));
        }
        assert forall|r: S| #[trigger] before.rooted_at(r) implies sets.rooted_at(r) by {
            assert(base.rooted_at(r));
            let last = base.closed@.len() - 1;
            assert(root_state(*base.closed@[last]) == r);
            assert(root_state(*current) == r);
            assert forall|i: int| 0 <= i < sets.open@.len() implies root_state(*#[trigger] sets.open@[i]) == r by {
                assert(sets.open@.contains(sets.open@[i]));
                assert(open3.contains(sets.open@[i]));
                let j = choose|j: int| 0 <= j < open3.len() && open3[j] == sets.open@[i];
                if j < base.open@.len() {
                    assert(open3[j] == base.open@[j]);
                } else {
                    assert(open3[j].parent == Some(current));
                }
            }
        }
        assert(before.closed@.is_prefix_of(sets.closed@)) by {
            assert forall|i: int| 0 <= i < before.closed@.len() implies before.closed@[i] == sets.closed@[i] by {
                assert(base.closed@[i] == before.closed@[i]);
            }
        }
    }
}

/// A round whose closed node is a goal leaves the lists well formed.
pub(crate) proof fn lemma_goal_round<S: State, G: SearchGraph<S>>(
    g: &G,
    before: AStarSets<S>,
    base: AStarSets<S>,
    current: Rc<Node<S>>,
)
    requires
        round_start(g, before, base, current),
        g.graph_is_goal(*current.state),
    ensures
        base.wf(g),
{
    let cs = base.closed_states();
    assert forall|i: int| 0 <= i < base.closed@.len() implies base.expanded_state(g, #[trigger] cs[i]) by {
        if i == before.closed@.len() {
            assert(cs[i] == *current.state);
        }
    }
}

/// Runs the search until a goal is closed or the open list is empty.
///
/// Each round takes the last node of the open list (the least estimate), skips
/// it if its state is already closed, closes it, returns it if it is a goal, and
/// otherwise adds to the open list a node for each child whose state is not
/// closed (the cost and the estimate saturate at `u32::MAX`), then sorts the open
/// list again. From a single root, with consistent estimates, the goal returned
/// is one of least cost.
#[verifier::spinoff_prover]
pub fn next_path<S: State, G: SearchGraph<S>, H: Estimator<S>>(
    sets: &mut AStarSets<S>,
    graph: &G,
    heuristic: &mut H,
) -> (result: Option<Rc<Node<S>>>)
    requires
        graph.graph_ready(),
        old(sets).wf(graph),
        forall|s: S| graph.in_graph_space(s) ==> #[trigger] old(heuristic).accepts(s),
    ensures
        final(sets).wf(graph),
        forall|s: S| graph.in_graph_space(s) ==> #[trigger] final(heuristic).accepts(s),
        final(heuristic).source() == old(heuristic).source(),
        forall|t: S, v: u32| #[trigger] final(heuristic).gives(t, v) == old(heuristic).gives(t, v),
        old(heuristic).kept_by(final(heuristic)),
        old(sets).estimated(old(heuristic)) ==> final(sets).estimated(final(heuristic)),
        fresh(*old(sets)) ==> final(sets).estimated(final(heuristic)),
        search_progress(*old(sets), *final(sets)),
        forall|i: int|
            old(sets).closed@.len() <= i < final(sets).closed@.len() && graph.graph_is_goal(
                #[trigger] final(sets).closed_states()[i],
            ) ==> i == final(sets).closed@.len() - 1 && result == Some(final(sets).closed@[i]),
        fresh(*old(sets)) && consistent(graph, &*old(heuristic)) ==> (result is Some ==> least_cost_goal(
            graph,
            *old(sets).open@[0].state,
            result->0,
        )),
        final(sets).closed@.len() > old(sets).closed@.len() ==> exists|k: int|
            {
                &&& #[trigger] picked(*old(sets), k, final(sets).closed@[old(sets).closed@.len() as int])
                &&& final(sets).closed@.len() == old(sets).closed@.len() + 1 && result is Some ==> final(sets).open@
                    == old(sets).open@.take(k)
            },
        match result {
            Some(n) => {
                &&& final(sets).closed@.len() > old(sets).closed@.len()
                &&& final(sets).closed@.last() == n
                &&& graph.graph_is_goal(*n.state)
            },
            None => {
                &&& final(sets).open@.len() == 0
                &&& final(sets).closed@.len() == old(sets).closed@.len() ==> forall|j: int|
                    0 <= j < old(sets).open@.len() ==> old(sets).closed_states().contains(
                        #[trigger] old(sets).open_states()[j],
                    )
            },
        },
{
    proof {
        lemma_closed_bounded(graph, *sets);
    }
    let ghost h0 = *heuristic;
    let ghost start0 = sets.open_states()[0];
    let ghost opt0 = fresh(*sets) && consistent(graph, &h0);
    proof {
        h0.lemma_kept_by(&h0, &h0);
        if fresh(*sets) {
            lemma_fresh_estimated(heuristic, *sets);
        }
        if opt0 {
            assert(node_ok(graph, *sets.open@[0]));
        }
    }
    loop
        invariant
            h0 == *old(heuristic),
            h0.kept_by(heuristic),
            opt0 == (fresh(*old(sets)) && consistent(graph, &h0)),
            fresh(*old(sets)) ==> old(sets).estimated(old(heuristic)),
            opt0 ==> start0 == *old(sets).open@[0].state && graph.in_graph_space(start0),
            opt0 ==> closed_optimal(graph, &h0, *sets, start0),
            opt0 ==> frontier_covered(graph, *sets, sets.closed@.len() as int),
            opt0 ==> (sets.closed@.len() > 0 ==> sets.closed_states().contains(start0)),
            opt0 ==> (sets.closed@.len() > 0 ==> forall|i: int|
                0 <= i < sets.open@.len() ==> (#[trigger] sets.open@[i]).parent is Some),
            graph.graph_ready(),
            sets.wf(graph),
            forall|s: S| graph.in_graph_space(s) ==> #[trigger] heuristic.accepts(s),
            heuristic.source() == old(heuristic).source(),
            forall|t: S, v: u32| #[trigger] heuristic.gives(t, v) == old(heuristic).gives(t, v),
            old(sets).estimated(old(heuristic)) ==> sets.estimated(heuristic),
            search_progress(*old(sets), *sets),
            closed_non_goals(graph, *sets, old(sets).closed@.len() as int),
            sets.closed@.len() <= graph.graph_size(),
            sets.closed@.len() >= old(sets).closed@.len(),
            sets.closed@.len() == old(sets).closed@.len() ==> *sets == *old(sets),
            sets.closed@.len() > old(sets).closed@.len() ==> exists|k: int|
                #[trigger] picked(*old(sets), k, sets.closed@[old(sets).closed@.len() as int]),
        decreases graph.graph_size() - sets.closed@.len(),
    {
        let ghost before = *sets;
        let current = match select_node(sets, graph) {
            Some(c) => c,
            None => {
                proof {
                    lemma_progress_trans(*old(sets), before, *sets);
                    if old(sets).estimated(old(heuristic)) {
                        assert(sets.closed@ =~= before.closed@);
                        assert forall|n: Rc<Node<S>>| #[trigger] sets.closed@.contains(n) implies chain_estimated(
                            heuristic,
                            *n,
                        ) by {
                            assert(before.closed@.contains(n));
                        }
                    }
                    let ol = old(sets).closed@.len() as int;
                    if sets.closed@.len() > ol {
                        let k = choose|k: int| #[trigger] picked(*old(sets), k, before.closed@[ol]);
                        assert(sets.closed@[ol] == before.closed@[ol]);
                        assert(picked(*old(sets), k, sets.closed@[ol]));
                    }
                }
                return None;
            },
        };
        let ghost base = *sets;
        proof {
            lemma_progress_trans(*old(sets), before, base);
            assert(base.closed@[base.closed@.len() - 1] == current);
            if old(sets).estimated(old(heuristic)) {
                lemma_estimated_select(heuristic, before, base, current);
            }
            let ol = old(sets).closed@.len() as int;
            if before.closed@.len() > ol {
                assert(base.closed@[ol] == before.closed@[ol]);
            } else {
                assert(base.closed@[ol] == current);
            }
            if opt0 {
                lemma_estimated_same(heuristic, &h0, before);
                let kk = choose|kk: int| picked(before, kk, current) && base.open@ == before.open@.take(kk);
                assert(old(sets).closed@.len() == 0);
                lemma_select_optimal(graph, &h0, before, base, start0, kk, current);
                assert forall|i: int| 0 <= i < base.open@.len() implies (#[trigger] base.open@[i]).parent is Some by {
                    assert(base.open@[i] == before.open@[i]);
                    if before.closed@.len() == 0 {
                        assert(kk == 0);
                    }
                }
            }
        }
        if graph.reached_goal(&current.state) {
            proof {
                lemma_goal_round(graph, before, base, current);
                assert forall|i: int| old(sets).closed@.len() <= i < before.closed@.len() implies !graph.graph_is_goal(
                    #[trigger] sets.closed_states()[i],
                ) by {
                    assert(sets.closed_states()[i] == before.closed_states()[i]);
                }
                let ol = old(sets).closed@.len() as int;
                if before.closed@.len() == ol {
                    let k = choose|k: int| picked(before, k, current) && base.open@ == before.open@.take(k);
                    assert(picked(*old(sets), k, sets.closed@[ol]));
                } else {
                    let k = choose|k: int| #[trigger] picked(*old(sets), k, before.closed@[ol]);
                    assert(picked(*old(sets), k, sets.closed@[ol]));
                }
            }
            return Some(current);
        }
        let children = graph.expand(&current.state);
        let ghost kids = rc_values(children@);
        let mut k: usize = 0;
        while k < children.len()
            invariant
                graph.graph_ready(),
                kids == graph.graph_children(*current.state),
                kids.len() == children@.len(),
                kids == rc_values(children@),
                k <= children@.len(),
                graph.in_graph_space(*current.state),
                round_ok(graph, base, current, *sets),
                forall|m: int| 0 <= m < k ==> sets.has_state(#[trigger] kids[m]),
                forall|t: S| #[trigger] base.has_state(t) ==> sets.has_state(t),
                forall|s: S| graph.in_graph_space(s) ==> #[trigger] heuristic.accepts(s),
                heuristic.source() == old(heuristic).source(),
                forall|t: S, v: u32| #[trigger] heuristic.gives(t, v) == old(heuristic).gives(t, v),
                old(sets).estimated(old(heuristic)) ==> sets.estimated(heuristic),
                h0 == *old(heuristic),
                h0.kept_by(heuristic),
                opt0 == (fresh(*old(sets)) && consistent(graph, &h0)),
                fresh(*old(sets)) ==> old(sets).estimated(old(heuristic)),
                opt0 ==> forall|i: int| 0 <= i < sets.open@.len() ==> (#[trigger] sets.open@[i]).parent is Some,
                opt0 ==> start0 == *old(sets).open@[0].state && graph.in_graph_space(start0),
                opt0 ==> closed_optimal(graph, &h0, *sets, start0),
                opt0 ==> frontier_covered(graph, *sets, before.closed@.len() as int),
                opt0 ==> sets.closed_states().contains(start0),
                opt0 ==> forall|m: int| 0 <= m < k ==> child_covered(graph, *sets, current, #[trigger] kids[m]),
            decreases children@.len() - k,
        {
            let child = rc_clone(&children[k]);
            proof {
                graph.lemma_graph_space();
                assert(kids[k as int] == *child);
                assert(graph.in_graph_space(graph.graph_children(*current.state)[k as int]));
            }
            let g = graph.step_cost(&child);
            let ghost heuristic0 = *heuristic;
            let h = heuristic.estimate(&child);
            let ghost sets2 = *sets;
            proof {
                h0.lemma_kept_by(&heuristic0, heuristic);
                if old(sets).estimated(old(heuristic)) {
                    lemma_estimated_same(&heuristic0, heuristic, sets2);
                }
                assert(heuristic.gives(*child, h));
            }
            add_child(sets, graph, Ghost(base), &current, child, g, h);
            proof {
                if old(sets).estimated(old(heuristic)) {
                    assert(sets2.closed@.contains(current)) by {
                        assert(sets2.closed@[sets2.closed@.len() - 1] == current);
                    }
                    assert forall|n: Rc<Node<S>>| #[trigger] sets.open@.contains(n) implies chain_estimated(
                        heuristic,
                        *n,
                    ) by {
                        if !sets2.open@.contains(n) {
                            let i = choose|i: int| 0 <= i < sets.open@.len() && sets.open@[i] == n;
                            assert(i >= base.open@.len()) by {
                                if i < base.open@.len() {
                                    assert(base.open@[i] == sets2.open@[i]);
                                    assert(sets2.open@.contains(sets2.open@[i]));
                                }
                            }
                            assert(n.parent == Some(current));
                            assert(heuristic.gives(*n.state, h));
                        }
                    }
                    assert forall|n: Rc<Node<S>>| #[trigger] sets.closed@.contains(n) implies chain_estimated(
                        heuristic,
                        *n,
                    ) by {
                        assert(sets2.closed@.contains(n));
                    }
                }
                if opt0 {
                    assert forall|i: int| 0 <= i < sets.open@.len() implies (#[trigger] sets.open@[i]).parent is Some by {
                        if i < sets2.open@.len() {
                            assert(sets.open@[i] == sets2.open@[i]) by {
                                if sets.open@ != sets2.open@ {
                                    assert(sets.open@.drop_last()[i] == sets2.open@[i]);
                                }
                            }
                            assert(sets2.open@[i].parent is Some);
                        } else {
                            assert(base.open@.len() <= sets2.open@.len());
                            assert(i >= base.open@.len());
                            assert(sets.open@[i].parent == Some(current));
                        }
                    }
                }
                assert forall|m: int| 0 <= m < k + 1 implies sets.has_state(#[trigger] kids[m]) by {
                    if m < k {
                        assert(sets2.has_state(kids[m]));
                    }
                }
                assert forall|t: S| #[trigger] base.has_state(t) implies sets.has_state(t) by {
                    assert(sets2.has_state(t));
                }
                if opt0 {
                    lemma_closed_optimal_same(graph, &h0, sets2, *sets, start0);
                    assert forall|n: Rc<Node<S>>| #[trigger] sets2.open@.contains(n) implies sets.open@.contains(n) by {
                        let j = choose|j: int| 0 <= j < sets2.open@.len() && sets2.open@[j] == n;
                        if sets.open@ != sets2.open@ {
                            assert(sets.open@.drop_last()[j] == n);
                            assert(sets.open@[j] == n);
                        }
                    }
                    assert(sets2.closed@ == sets.closed@);
                    lemma_cover_kept(graph, sets2, *sets, before.closed@.len() as int);
                    assert(sets.closed_states() =~= sets2.closed_states());
                    assert forall|m: int| 0 <= m < k + 1 implies child_covered(graph, *sets, current, #[trigger] kids[m]) by {
                        if m < k {
                            assert(child_covered(graph, sets2, current, kids[m]));
                        } else if !sets2.closed_states().contains(kids[m]) {
                            let last = sets.open@.len() - 1;
                            assert(sets.open_states()[last] == kids[m]);
                        }
                    }
                }
            }
            k = k + 1;
        }
        let ghost sets4 = *sets;
        finish_round(sets, graph, Ghost(before), Ghost(base), Ghost(current));
        proof {
            if old(sets).estimated(old(heuristic)) {
                assert forall|n: Rc<Node<S>>| #[trigger] sets.open@.contains(n) implies chain_estimated(heuristic, *n) by {
                    assert(sets4.open@.contains(n));
                }
            }
            if opt0 {
                assert forall|i: int| 0 <= i < sets.open@.len() implies (#[trigger] sets.open@[i]).parent is Some by {
                    assert(sets.open@.contains(sets.open@[i]));
                    assert(sets4.open@.contains(sets.open@[i]));
                    let j = choose|j: int| 0 <= j < sets4.open@.len() && sets4.open@[j] == sets.open@[i];
                    assert(sets4.open@[j].parent is Some);
                }
            }
            let ol = old(sets).closed@.len() as int;
            assert(sets.closed@[ol] == base.closed@[ol]);
            if opt0 {
                lemma_closed_optimal_same(graph, &h0, sets4, *sets, start0);
                lemma_cover_kept(graph, sets4, *sets, before.closed@.len() as int);
                let bl = before.closed@.len() as int;
                assert(sets.closed_states() =~= sets4.closed_states());
                assert forall|i: int, kk: int|
                    0 <= i < sets.closed@.len() && i < sets.closed@.len() && !graph.graph_is_goal(
                        sets.closed_states()[i],
                    ) && 0 <= kk < graph.graph_children(sets.closed_states()[i]).len() implies child_covered(
                    graph,
                    *sets,
                    sets.closed@[i],
                    #[trigger] graph.graph_children(sets.closed_states()[i])[kk],
                ) by {
                    if i == bl {
                        assert(sets.closed@[i] == current);
                        assert(sets.closed_states()[i] == *current.state);
                        assert(child_covered(graph, sets4, current, kids[kk]));
                    }
                }
            }
            lemma_progress_trans(*old(sets), before, *sets);
            assert forall|i: int| old(sets).closed@.len() <= i < sets.closed@.len() implies !graph.graph_is_goal(
                #[trigger] sets.closed_states()[i],
            ) by {
                if i < before.closed@.len() {
                    assert(sets.closed_states()[i] == before.closed_states()[i]);
                } else {
                    assert(sets.closed_states()[i] == *current.state);
                }
            }
        }
    }
}

/// The closed list of well-formed lists is no longer than the graph's size.
pub(crate) proof fn lemma_closed_bounded<S: State, G: SearchGraph<S>>(g: &G, sets: AStarSets<S>)
    requires
        g.graph_ready(),
        sets.wf(g),
    ensures
        sets.closed@.len() <= g.graph_size(),
{
    assert forall|i: int| 0 <= i < sets.closed_states().len() implies g.in_graph_space(
        #[trigger] sets.closed_states()[i],
    ) by {
        assert(node_ok(g, *sets.closed@[i]));
    }
    lemma_distinct_states_bounded(g, sets.closed_states());
}

/// Law (completeness of an exhausted search): when the open list is empty and
/// `start` is closed, every state that a path from `start` reaches without
/// passing through a goal is closed.
pub proof fn lemma_exhausted_search_closed<S: State, G: SearchGraph<S>>(
    g: &G,
    sets: AStarSets<S>,
    start: S,
    path: Seq<S>,
)
    requires
        sets.expanded(g),
        sets.open@.len() == 0,
        sets.closed_states().contains(start),
        is_path(g, path),
        path[0] == start,
        forall|i: int| 0 <= i < path.len() - 1 ==> !g.graph_is_goal(#[trigger] path[i]),
    ensures
        forall|i: int| 0 <= i < path.len() ==> sets.closed_states().contains(#[trigger] path[i]),
{
    assert forall|i: int| 0 <= i < path.len() implies sets.closed_states().contains(#[trigger] path[i]) by {
        lemma_exhausted_prefix(g, sets, start, path, i);
    }
}

proof fn lemma_exhausted_prefix<S: State, G: SearchGraph<S>>(
    g: &G,
    sets: AStarSets<S>,
    start: S,
    path: Seq<S>,
    i: int,
)
    requires
        sets.expanded(g),
        sets.open@.len() == 0,
        sets.closed_states().contains(start),
        is_path(g, path),
        path[0] == start,
        forall|j: int| 0 <= j < path.len() - 1 ==> !g.graph_is_goal(#[trigger] path[j]),
        0 <= i < path.len(),
    ensures
        sets.closed_states().contains(path[i]),
    decreases i,
{
    if i > 0 {
        lemma_exhausted_prefix(g, sets, start, path, i - 1);
        let prev = path[i - 1];
        let j = choose|j: int| 0 <= j < sets.closed_states().len() && sets.closed_states()[j] == prev;
        assert(sets.expanded_state(g, sets.closed_states()[j]));
        assert(!g.graph_is_goal(path[i - 1]));
        assert(g.graph_children(prev).contains(path[i]));
        let k = choose|k: int| 0 <= k < g.graph_children(prev).len() && g.graph_children(prev)[k] == path[i];
        assert(sets.has_state(g.graph_children(prev)[k]));
    }
}

/// Law (no goal is missed): when the open list is empty, `start` is closed and no
/// closed state is a goal, no path from `start` ends at a goal.
pub proof fn lemma_exhausted_search_no_goal<S: State, G: SearchGraph<S>>(
    g: &G,
    sets: AStarSets<S>,
    start: S,
    path: Seq<S>,
)
    requires
        sets.expanded(g),
        sets.open@.len() == 0,
        sets.closed_states().contains(start),
        forall|i: int| 0 <= i < sets.closed_states().len() ==> !g.graph_is_goal(#[trigger] sets.closed_states()[i]),
        is_path(g, path),
        path[0] == start,
    ensures
        !g.graph_is_goal(path.last()),
    decreases path.len(),
{
    // the first goal on the path would be closed
    if exists|i: int| 0 <= i < path.len() && #[trigger] g.graph_is_goal(path[i]) {
        let m = choose|i: int| 0 <= i < path.len() && #[trigger] g.graph_is_goal(path[i]);
        lemma_first_goal(g, path, m);
        let f = choose|f: int| 0 <= f <= m && g.graph_is_goal(path[f]) && forall|j: int| 0 <= j < f ==> !g.graph_is_goal(#[trigger] path[j]);
        let pre = path.subrange(0, f + 1);
        assert forall|i: int| 0 < i < pre.len() implies g.graph_children(pre[i - 1]).contains(#[trigger] pre[i]) by {
            assert(pre[i] == path[i]);
            assert(pre[i - 1] == path[i - 1]);
        }
        assert forall|j: int| 0 <= j < pre.len() - 1 implies !g.graph_is_goal(#[trigger] pre[j]) by {
            assert(pre[j] == path[j]);
        }
        lemma_exhausted_search_closed(g, sets, start, pre);
        assert(sets.closed_states().contains(pre[f]));
    }
}

proof fn lemma_first_goal<S: State, G: SearchGraph<S>>(g: &G, path: Seq<S>, m: int)
    requires
        0 <= m < path.len(),
        g.graph_is_goal(path[m]),
    ensures
        exists|f: int| 0 <= f <= m && g.graph_is_goal(path[f]) && forall|j: int| 0 <= j < f ==> !g.graph_is_goal(#[trigger] path[j]),
    decreases m,
{
    if exists|j: int| 0 <= j < m && #[trigger] g.graph_is_goal(path[j]) {
        let j = choose|j: int| 0 <= j < m && #[trigger] g.graph_is_goal(path[j]);
        lemma_first_goal(g, path, j);
    } else {
        assert(forall|j: int| 0 <= j < m ==> !g.graph_is_goal(#[trigger] path[j]));
    }
}

/// Law (order of expansion): the node that a round closes from well-formed
/// lists (see `select_node` and `next_path`) has the least estimated total cost
/// among the open nodes whose state is not closed.
pub proof fn lemma_picked_has_least_estimate<S: State>(sets: AStarSets<S>, k: int, n: Rc<Node<S>>)
    requires
        sorted_by_estimate(sets.open@),
        picked(sets, k, n),
    ensures
        forall|i: int|
            0 <= i < sets.open@.len() && !sets.closed_states().contains(#[trigger] sets.open_states()[i])
                ==> n.estimated_total_cost <= sets.open@[i].estimated_total_cost,
{
    assert forall|i: int|
        0 <= i < sets.open@.len() && !sets.closed_states().contains(#[trigger] sets.open_states()[i]) implies n.estimated_total_cost
        <= sets.open@[i].estimated_total_cost by {
        if i > k {
            assert(sets.closed_states().contains(sets.open_states()[i]));
        } else {
            assert(sets.open@[k].estimated_total_cost <= sets.open@[i].estimated_total_cost);
        }
    }
}

/// The estimate that `h` gives for `s` (one chosen where it gives several).
pub open spec fn estimate_of<S: State, H: Estimator<S>>(h: &H, s: S) -> u32 {
    choose|v: u32| h.gives(s, v)
}

/// `h` gives each state of the graph's space exactly one estimate; these are
/// consistent (the estimate of a state is at most the cost of a step to a child
/// plus the child's estimate) and 0 at goals.
pub open spec fn consistent<S: State, G: SearchGraph<S>, H: Estimator<S>>(g: &G, h: &H) -> bool {
    &&& forall|s: S| #[trigger] g.in_graph_space(s) ==> h.gives(s, estimate_of(h, s))
    &&& forall|s: S, v: u32| g.in_graph_space(s) && #[trigger] h.gives(s, v) ==> v == estimate_of(h, s)
    &&& forall|s: S, i: int|
        g.in_graph_space(s) && 0 <= i < g.graph_children(s).len() ==> estimate_of(h, s) <= g.graph_cost(
            #[trigger] g.graph_children(s)[i],
        ) + estimate_of(h, g.graph_children(s)[i])
    &&& forall|s: S| g.in_graph_space(s) && #[trigger] g.graph_is_goal(s) ==> estimate_of(h, s) == 0
}

/// Lists as a search from a single root starts them: nothing closed, the root
/// alone in the open list.
pub open spec fn fresh<S: State>(sets: AStarSets<S>) -> bool {
    &&& sets.closed@.len() == 0
    &&& sets.open@.len() == 1
    &&& sets.open@[0].parent is None
}

/// Every closed node costs no more than any path from `start` to its state
/// (where that path's exact cost plus the estimate of its end fits in a `u32`).
pub open spec fn closed_optimal<S: State, G: SearchGraph<S>, H: Estimator<S>>(
    g: &G,
    h: &H,
    sets: AStarSets<S>,
    start: S,
) -> bool {
    forall|i: int, path: Seq<S>|
        #![trigger sets.closed@[i], is_path(g, path)]
        0 <= i < sets.closed@.len() && is_path(g, path) && path[0] == start && path.last()
            == *sets.closed@[i].state && path_sum(g, path) + estimate_of(h, path.last()) < u32::MAX
            ==> sets.closed@[i].cost_from_root <= path_sum(g, path)
}

/// Each child of a state closed at an index below `upto` that is not a goal is
/// closed, or has an open node that costs no more than the closed node plus the step.
pub open spec fn frontier_covered<S: State, G: SearchGraph<S>>(g: &G, sets: AStarSets<S>, upto: int) -> bool {
    forall|i: int, k: int|
        0 <= i < upto && i < sets.closed@.len() && !g.graph_is_goal(sets.closed_states()[i]) && 0 <= k < g.graph_children(
            sets.closed_states()[i],
        ).len() ==> child_covered(g, sets, sets.closed@[i], #[trigger] g.graph_children(sets.closed_states()[i])[k])
}

/// `t` is closed, or an open node of state `t` costs at most `c`'s cost plus the step to `t`.
pub open spec fn child_covered<S: State, G: SearchGraph<S>>(g: &G, sets: AStarSets<S>, c: Rc<Node<S>>, t: S) -> bool {
    ||| sets.closed_states().contains(t)
    ||| exists|m: int|
        0 <= m < sets.open@.len() && #[trigger] sets.open_states()[m] == t && sets.open@[m].cost_from_root
            <= c.cost_from_root + g.graph_cost(t)
}

/// Every path from `start` to a goal costs at least what `n` costs.
pub open spec fn least_cost_goal<S: State, G: SearchGraph<S>>(g: &G, start: S, n: Rc<Node<S>>) -> bool {
    forall|path: Seq<S>|
        #![trigger is_path(g, path)]
        is_path(g, path) && path[0] == start && g.graph_is_goal(path.last()) ==> n.cost_from_root <= path_sum(
            g,
            path,
        )
}

/// The problem's heuristic is consistent: at a state of its space it is at most
/// the cost of a step to a child plus the child's heuristic, and it is 0 at goals.
pub open spec fn consistent_heuristic<S: State, P: Problem<S>>(p: &P) -> bool {
    &&& forall|s: S, i: int|
        p.in_state_space(s) && 0 <= i < p.spec_children(s).len() ==> p.spec_heuristic(s) <= p.spec_cost(
            #[trigger] p.spec_children(s)[i],
        ) + p.spec_heuristic(p.spec_children(s)[i])
    &&& forall|s: S| p.in_state_space(s) && #[trigger] p.spec_is_goal(s) ==> p.spec_heuristic(s) == 0
}

/// A consistent heuristic of a problem makes its estimator consistent.
proof fn lemma_problem_consistent<'a, S: State, P: Problem<S>>(p: &'a P)
    requires
        consistent_heuristic(p),
    ensures
        consistent(&ProblemGraph { problem: p }, &ProblemEstimator { problem: p }),
{
    let g = ProblemGraph { problem: p };
    let e = ProblemEstimator { problem: p };
    assert forall|s: S| #[trigger] g.in_graph_space(s) implies e.gives(s, estimate_of(&e, s)) by {
        assert(e.gives(s, p.spec_heuristic(s)));
    }
    assert forall|s: S| #[trigger] e.gives(s, p.spec_heuristic(s)) implies estimate_of(&e, s) == p.spec_heuristic(s) by {
    }
    assert forall|s: S, i: int|
        g.in_graph_space(s) && 0 <= i < g.graph_children(s).len() implies estimate_of(&e, s) <= g.graph_cost(
        #[trigger] g.graph_children(s)[i],
    ) + estimate_of(&e, g.graph_children(s)[i]) by {
        assert(e.gives(s, p.spec_heuristic(s)));
        assert(e.gives(g.graph_children(s)[i], p.spec_heuristic(g.graph_children(s)[i])));
    }
    assert forall|s: S| g.in_graph_space(s) && #[trigger] g.graph_is_goal(s) implies estimate_of(&e, s) == 0 by {
        assert(e.gives(s, p.spec_heuristic(s)));
    }
}

/// A path from a state of the graph's space stays in it.
proof fn lemma_path_in_space<S: State, G: SearchGraph<S>>(g: &G, path: Seq<S>)
    requires
        g.graph_ready(),
        is_path(g, path),
        g.in_graph_space(path[0]),
    ensures
        forall|i: int| 0 <= i < path.len() ==> g.in_graph_space(#[trigger] path[i]),
    decreases path.len(),
{
    g.lemma_graph_space();
    if path.len() > 1 {
        let q = path.drop_last();
        assert(is_path(g, q)) by {
            assert forall|i: int| 0 < i < q.len() implies g.graph_children(q[i - 1]).contains(#[trigger] q[i]) by {
                assert(q[i] == path[i] && q[i - 1] == path[i - 1]);
            }
        }
        lemma_path_in_space(g, q);
        assert forall|i: int| 0 <= i < path.len() implies g.in_graph_space(#[trigger] path[i]) by {
            if i < q.len() {
                assert(path[i] == q[i]);
            } else {
                let n = path.len() - 1;
                assert(g.in_graph_space(q[n - 1]));
                assert(g.graph_children(path[n - 1]).contains(path[n]));
                let k = choose|k: int| 0 <= k < g.graph_children(path[n - 1]).len() && #[trigger] g.graph_children(path[n - 1])[k] == path[n];
                assert(g.in_graph_space(g.graph_children(path[n - 1])[k]));
            }
        }
    }
}

/// Along a path, a consistent estimate of its first state is at most the path's
/// cost plus the estimate of its last.
proof fn lemma_consistent_along<S: State, G: SearchGraph<S>, H: Estimator<S>>(g: &G, h: &H, path: Seq<S>)
    requires
        g.graph_ready(),
        consistent(g, h),
        is_path(g, path),
        g.in_graph_space(path[0]),
    ensures
        estimate_of(h, path[0]) <= path_sum(g, path) + estimate_of(h, path.last()),
    decreases path.len(),
{
    if path.len() > 1 {
        let q = path.drop_last();
        assert(is_path(g, q)) by {
            assert forall|i: int| 0 < i < q.len() implies g.graph_children(q[i - 1]).contains(#[trigger] q[i]) by {
                assert(q[i] == path[i] && q[i - 1] == path[i - 1]);
            }
        }
        lemma_consistent_along(g, h, q);
        lemma_path_in_space(g, path);
        let n = path.len() - 1;
        assert(g.graph_children(path[n - 1]).contains(path[n]));
        let k = choose|k: int| 0 <= k < g.graph_children(path[n - 1]).len() && #[trigger] g.graph_children(path[n - 1])[k] == path[n];
        assert(g.in_graph_space(path[n - 1]));
        assert(estimate_of(h, path[n - 1]) <= g.graph_cost(g.graph_children(path[n - 1])[k]) + estimate_of(
            h,
            g.graph_children(path[n - 1])[k],
        ));
        assert(q.last() == path[n - 1]);
    }
}

/// The first index of `path` whose state is not in `closed`, where its last is not.
proof fn lemma_first_not_closed<S: State>(path: Seq<S>, closed: Seq<S>) -> (j: int)
    requires
        path.len() > 0,
        !closed.contains(path.last()),
    ensures
        0 <= j < path.len(),
        !closed.contains(path[j]),
        forall|i: int| 0 <= i < j ==> closed.contains(#[trigger] path[i]),
    decreases path.len(),
{
    if path.len() == 1 || !closed.contains(path[0]) {
        0
    } else {
        let rest = path.subrange(1, path.len() as int);
        assert(rest.last() == path.last());
        let j1 = lemma_first_not_closed(rest, closed);
        assert forall|i: int| 0 <= i < j1 + 1 implies closed.contains(#[trigger] path[i]) by {
            if i > 0 {
                assert(path[i] == rest[i - 1]);
            }
        }
        assert(path[j1 + 1] == rest[j1]);
        j1 + 1
    }
}

/// The node that a round closes, with consistent estimates, is estimated at most
/// at the cost of any path from `start` to a state that is not closed, plus the
/// estimate of that state.
proof fn lemma_pick_bound<S: State, G: SearchGraph<S>, H: Estimator<S>>(
    g: &G,
    h: &H,
    sets: AStarSets<S>,
    start: S,
    k: int,
    n: Rc<Node<S>>,
    path: Seq<S>,
)
    requires
        g.graph_ready(),
        sets.wf(g),
        sets.estimated(h),
        consistent(g, h),
        closed_optimal(g, h, sets, start),
        frontier_covered(g, sets, sets.closed@.len() as int),
        closed_non_goals(g, sets, 0),
        sets.closed_states().contains(start),
        forall|i: int| 0 <= i < sets.open@.len() ==> (#[trigger] sets.open@[i]).parent is Some,
        g.in_graph_space(start),
        picked(sets, k, n),
        is_path(g, path),
        path[0] == start,
        !sets.closed_states().contains(path.last()),
        path_sum(g, path) + estimate_of(h, path.last()) < u32::MAX,
    ensures
        n.estimated_total_cost <= path_sum(g, path) + estimate_of(h, path.last()),
{
    let cs = sets.closed_states();
    let j = lemma_first_not_closed(path, cs);
    assert(j >= 1);
    let len = path.len() as int;
    lemma_path_in_space(g, path);
    // the closed node of the state before `path[j]`
    assert(cs.contains(path[j - 1]));
    let ci = choose|ci: int| 0 <= ci < cs.len() && #[trigger] cs[ci] == path[j - 1];
    let c = sets.closed@[ci];
    // the part of the path up to `path[j - 1]`
    let pre = path.subrange(0, j);
    let post = path.subrange(j - 1, len);
    lemma_path_split(g, path, j - 1);
    assert(is_path(g, pre)) by {
        assert forall|i: int| 0 < i < pre.len() implies g.graph_children(pre[i - 1]).contains(#[trigger] pre[i]) by {
            assert(pre[i] == path[i] && pre[i - 1] == path[i - 1]);
        }
    }
    assert(pre[0] == start);
    assert(pre.last() == path[j - 1]);
    assert(post[0] == path[j - 1]);
    assert(post.last() == path.last());
    lemma_consistent_along(g, h, post);
    assert(sets.closed@[ci] == c);
    assert(c.cost_from_root <= path_sum(g, pre));
    // the step to `path[j]` and the rest of the path
    let tail = path.subrange(j, len);
    lemma_path_split(g, post, 1);
    assert(post.subrange(1, post.len() as int) =~= tail);
    let step = post.subrange(0, 2);
    assert(step.drop_last().len() == 1);
    assert(path_sum(g, step.drop_last()) == 0);
    assert(step.last() == path[j]);
    assert(path_sum(g, step) == g.graph_cost(path[j]));
    let t = path[j];
    assert(g.graph_children(path[j - 1]).contains(t));
    let kk = choose|kk: int| 0 <= kk < g.graph_children(cs[ci]).len() && #[trigger] g.graph_children(cs[ci])[kk] == t;
    assert(!g.graph_is_goal(cs[ci]));
    assert(child_covered(g, sets, sets.closed@[ci], g.graph_children(cs[ci])[kk]));
    let m = choose|m: int|
        0 <= m < sets.open@.len() && #[trigger] sets.open_states()[m] == t && sets.open@[m].cost_from_root
            <= c.cost_from_root + g.graph_cost(t);
    let node_m = sets.open@[m];
    assert(sets.open@.contains(node_m));
    assert(chain_estimated(h, *node_m));
    assert(node_m.parent is Some);
    assert(estimated_by(h, *node_m));
    let v = choose|v: u32| #[trigger] h.gives(*node_m.state, v) && node_m.estimated_total_cost == sat_add(
        node_m.cost_from_root,
        v,
    );
    assert(g.in_graph_space(t));
    assert(v == estimate_of(h, t));
    assert(tail[0] == t);
    assert(tail.last() == path.last());
    assert(is_path(g, tail));
    lemma_consistent_along(g, h, tail);
    lemma_picked_has_least_estimate(sets, k, n);
    assert(n.estimated_total_cost <= node_m.estimated_total_cost);
}

pub(crate) proof fn lemma_closed_optimal_same<S: State, G: SearchGraph<S>, H: Estimator<S>>(
    g: &G,
    h: &H,
    a: AStarSets<S>,
    b: AStarSets<S>,
    start: S,
)
    requires
        a.closed@ == b.closed@,
        closed_optimal(g, h, a, start),
    ensures
        closed_optimal(g, h, b, start),
{
    assert forall|i: int, path: Seq<S>|
        #![trigger b.closed@[i], is_path(g, path)]
        0 <= i < b.closed@.len() && is_path(g, path) && path[0] == start && path.last() == *b.closed@[i].state
            && path_sum(g, path) + estimate_of(h, path.last()) < u32::MAX implies b.closed@[i].cost_from_root
        <= path_sum(g, path) by {
        assert(a.closed@[i] == b.closed@[i]);
    }
}

/// Coverage of children survives a longer open list and a permuted one.
pub(crate) proof fn lemma_cover_kept<S: State, G: SearchGraph<S>>(g: &G, a: AStarSets<S>, b: AStarSets<S>, upto: int)
    requires
        a.closed@ == b.closed@,
        forall|n: Rc<Node<S>>| #[trigger] a.open@.contains(n) ==> b.open@.contains(n),
        frontier_covered(g, a, upto),
    ensures
        frontier_covered(g, b, upto),
        forall|c: Rc<Node<S>>, t: S| #[trigger] child_covered(g, a, c, t) ==> child_covered(g, b, c, t),
{
    assert(a.closed_states() =~= b.closed_states());
    assert forall|c: Rc<Node<S>>, t: S| #[trigger] child_covered(g, a, c, t) implies child_covered(g, b, c, t) by {
        if !a.closed_states().contains(t) {
            let m = choose|m: int|
                0 <= m < a.open@.len() && #[trigger] a.open_states()[m] == t && a.open@[m].cost_from_root
                    <= c.cost_from_root + g.graph_cost(t);
            assert(a.open@.contains(a.open@[m]));
            let m2 = choose|m2: int| 0 <= m2 < b.open@.len() && b.open@[m2] == a.open@[m];
            assert(b.open_states()[m2] == t);
        }
    }
    assert forall|i: int, k: int|
        0 <= i < upto && i < b.closed@.len() && !g.graph_is_goal(b.closed_states()[i]) && 0 <= k < g.graph_children(
            b.closed_states()[i],
        ).len() implies child_covered(g, b, b.closed@[i], #[trigger] g.graph_children(b.closed_states()[i])[k]) by {
        assert(b.closed_states()[i] == a.closed_states()[i]);
        assert(child_covered(g, a, a.closed@[i], g.graph_children(a.closed_states()[i])[k]));
    }
}

/// Closing the node that a round picks keeps every closed node's cost the least
/// and the children of the earlier closed states covered.
pub(crate) proof fn lemma_select_optimal<S: State, G: SearchGraph<S>, H: Estimator<S>>(
    g: &G,
    h: &H,
    before: AStarSets<S>,
    base: AStarSets<S>,
    start: S,
    k: int,
    c: Rc<Node<S>>,
)
    requires
        g.graph_ready(),
        before.wf(g),
        before.estimated(h),
        consistent(g, h),
        closed_optimal(g, h, before, start),
        frontier_covered(g, before, before.closed@.len() as int),
        closed_non_goals(g, before, 0),
        before.closed@.len() > 0 ==> before.closed_states().contains(start),
        before.closed@.len() == 0 ==> fresh(before) && *before.open@[0].state == start,
        before.closed@.len() > 0 ==> forall|i: int| 0 <= i < before.open@.len() ==> (#[trigger] before.open@[i]).parent is Some,
        g.in_graph_space(start),
        picked(before, k, c),
        base.open@ == before.open@.take(k),
        base.closed@ == before.closed@.push(c),
    ensures
        closed_optimal(g, h, base, start),
        frontier_covered(g, base, before.closed@.len() as int),
        base.closed_states().contains(start),
        g.graph_is_goal(*c.state) ==> least_cost_goal(g, start, c),
{
    let bl = before.closed@.len() as int;
    let bcs = before.closed_states();
    let cs = base.closed_states();
    assert(cs =~= bcs.push(*c.state));
    assert(before.open@.contains(c));
    assert(node_ok(g, *c));
    if bl == 0 {
        assert(k == 0);
        assert(c == before.open@[0]);
        assert(c.cost_from_root == 0);
    } else {
        assert(before.open@[k].parent is Some);
        assert(chain_estimated(h, *c));
        assert(estimated_by(h, *c));
        let vc = choose|v: u32| #[trigger] h.gives(*c.state, v) && c.estimated_total_cost == sat_add(c.cost_from_root, v);
        assert(vc == estimate_of(h, *c.state));
        assert(c.estimated_total_cost == sat_add(c.cost_from_root, estimate_of(h, *c.state)));
    }
    // a path to a state not closed before costs at least what `c` is estimated at
    assert forall|path: Seq<S>|
        #![trigger is_path(g, path)]
        is_path(g, path) && path[0] == start && !bcs.contains(path.last()) && path_sum(g, path) + estimate_of(
            h,
            path.last(),
        ) < u32::MAX && bl > 0 implies c.estimated_total_cost <= path_sum(g, path) + estimate_of(h, path.last()) by {
        lemma_pick_bound(g, h, before, start, k, c, path);
    }
    assert forall|i: int, path: Seq<S>|
        #![trigger base.closed@[i], is_path(g, path)]
        0 <= i < base.closed@.len() && is_path(g, path) && path[0] == start && path.last() == *base.closed@[i].state
            && path_sum(g, path) + estimate_of(h, path.last()) < u32::MAX implies base.closed@[i].cost_from_root
        <= path_sum(g, path) by {
        if i < bl {
            assert(base.closed@[i] == before.closed@[i]);
        } else {
            assert(base.closed@[i] == c);
        }
    }
    assert forall|t: S| #[trigger] bcs.contains(t) implies cs.contains(t) by {
        let j = choose|j: int| 0 <= j < bcs.len() && bcs[j] == t;
        assert(cs[j] == t);
    }
    assert forall|i: int, kk: int|
        0 <= i < bl && i < base.closed@.len() && !g.graph_is_goal(cs[i]) && 0 <= kk < g.graph_children(cs[i]).len()
            implies child_covered(g, base, base.closed@[i], #[trigger] g.graph_children(cs[i])[kk]) by {
        assert(cs[i] == bcs[i]);
        assert(base.closed@[i] == before.closed@[i]);
        let t = g.graph_children(cs[i])[kk];
        assert(child_covered(g, before, before.closed@[i], g.graph_children(bcs[i])[kk]));
        if !bcs.contains(t) {
            let m = choose|m: int|
                0 <= m < before.open@.len() && #[trigger] before.open_states()[m] == t && before.open@[m].cost_from_root
                    <= before.closed@[i].cost_from_root + g.graph_cost(t);
            if m < k {
                assert(base.open@[m] == before.open@[m]);
                assert(base.open_states()[m] == t);
            } else if m == k {
                assert(cs[bl] == t);
            } else {
                assert(bcs.contains(before.open_states()[m]));
            }
        }
    }
    if bl == 0 {
        assert(cs[0] == start);
    } else {
        assert(cs.contains(start));
    }
    assert forall|path: Seq<S>|
        #![trigger is_path(g, path)]
        is_path(g, path) && path[0] == start && g.graph_is_goal(path.last()) && g.graph_is_goal(*c.state) implies c.cost_from_root
        <= path_sum(g, path) by {
        if path_sum(g, path) < u32::MAX {
            lemma_path_in_space(g, path);
            assert(g.in_graph_space(path[path.len() - 1]));
            assert(estimate_of(h, path.last()) == 0);
            if bcs.contains(path.last()) {
                let j = choose|j: int| 0 <= j < bcs.len() && bcs[j] == path.last();
                assert(!g.graph_is_goal(bcs[j]));
            }
            if bl > 0 {
                assert(c.estimated_total_cost <= path_sum(g, path));
            }
        }
    }
}

/// What a call of `next_path` gives, for a search from `start`, with the lists
/// `before` and `after` the call.
///
/// A returned node is the last closed one, a goal, and its chain of parents is a
/// path from `start`, visiting no state twice, with the node's cost. `None` means that the open list is
/// exhausted: every state reached from `start` without passing through a goal is
/// then closed, and if no goal was closed before the call, no path from `start`
/// reaches a goal. The closed list only grows.
pub open spec fn search_outcome<S: State, G: SearchGraph<S>>(
    g: &G,
    start: S,
    before: AStarSets<S>,
    after: AStarSets<S>,
    result: Option<Rc<Node<S>>>,
) -> bool {
    &&& before.closed@.is_prefix_of(after.closed@)
    &&& match result {
        Some(n) => {
            &&& g.graph_is_goal(*n.state)
            &&& after.closed@.len() > before.closed@.len()
            &&& after.closed@.last() == n
            &&& is_path(g, path_states(*n))
            &&& path_states(*n).no_duplicates()
            &&& path_states(*n)[0] == start
            &&& path_states(*n).last() == *n.state
            &&& n.cost_from_root == path_cost(g, path_states(*n))
        },
        None => {
            &&& after.open@.len() == 0
            &&& forall|path: Seq<S>|
                #![trigger is_path(g, path)]
                is_path(g, path) && path[0] == start && (forall|i: int|
                    0 <= i < path.len() - 1 ==> !g.graph_is_goal(#[trigger] path[i]))
                    ==> after.closed_states().contains(path.last())
            &&& (forall|i: int|
                0 <= i < before.closed_states().len() ==> !g.graph_is_goal(#[trigger] before.closed_states()[i]))
                ==> forall|path: Seq<S>|
                #![trigger is_path(g, path)]
                is_path(g, path) && path[0] == start ==> !g.graph_is_goal(path.last())
        },
    }
}

/// `search_outcome` follows from what `next_path` ensures, for lists whose
/// nodes all descend from `start`, which they hold.
pub(crate) proof fn lemma_search_outcome<S: State, G: SearchGraph<S>>(
    g: &G,
    start: S,
    before: AStarSets<S>,
    after: AStarSets<S>,
    result: Option<Rc<Node<S>>>,
)
    requires
        before.has_state(start),
        before.rooted_at(start),
        after.wf(g),
        search_progress(before, after),
        forall|i: int|
            before.closed@.len() <= i < after.closed@.len() && g.graph_is_goal(
                #[trigger] after.closed_states()[i],
            ) ==> i == after.closed@.len() - 1 && result == Some(after.closed@[i]),
        match result {
            Some(n) => {
                &&& after.closed@.len() > before.closed@.len()
                &&& after.closed@.last() == n
                &&& g.graph_is_goal(*n.state)
            },
            None => after.open@.len() == 0,
        },
    ensures
        search_outcome(g, start, before, after, result),
        after.has_state(start),
        after.rooted_at(start),
{
    assert(after.has_state(start));
    assert(after.rooted_at(start));
    if result is Some {
        let c = after.closed@;
        assert(node_ok(g, *c[c.len() - 1]));
        assert(chain_closed(*c[c.len() - 1], after.closed_states()));
        lemma_node_path(g, c[c.len() - 1]);
        assert(root_state(*c[c.len() - 1]) == start);
    } else {
        assert(after.closed_states().contains(start));
        assert forall|path: Seq<S>|
            #![trigger is_path(g, path)]
            is_path(g, path) && path[0] == start && (forall|i: int|
                0 <= i < path.len() - 1 ==> !g.graph_is_goal(#[trigger] path[i]))
            implies after.closed_states().contains(path.last()) by {
            lemma_exhausted_search_closed(g, after, start, path);
            assert(after.closed_states().contains(path[path.len() - 1]));
        }
        if forall|i: int|
            0 <= i < before.closed_states().len() ==> !g.graph_is_goal(#[trigger] before.closed_states()[i]) {
            assert forall|i: int| 0 <= i < after.closed_states().len() implies !g.graph_is_goal(
                #[trigger] after.closed_states()[i],
            ) by {
                if i < before.closed@.len() {
                    assert(after.closed@[i] == before.closed@[i]);
                    assert(before.closed_states()[i] == after.closed_states()[i]);
                }
            }
            assert forall|path: Seq<S>|
                #![trigger is_path(g, path)]
                is_path(g, path) && path[0] == start implies !g.graph_is_goal(path.last()) by {
                lemma_exhausted_search_no_goal(g, after, start, path);
            }
        }
    }
}

/// Law: two successive calls of `next_path` never return nodes of the same state.
pub proof fn lemma_goals_differ<S: State, G: SearchGraph<S>>(
    g: &G,
    start: S,
    first: AStarSets<S>,
    second: AStarSets<S>,
    third: AStarSets<S>,
    n1: Rc<Node<S>>,
    n2: Rc<Node<S>>,
)
    requires
        search_outcome(g, start, first, second, Some(n1)),
        search_outcome(g, start, second, third, Some(n2)),
        third.wf(g),
    ensures
        *n1.state != *n2.state,
{
    let i = second.closed@.len() - 1;
    let j = third.closed@.len() - 1;
    assert(third.closed@[i] == second.closed@[i]);
    assert(third.closed_states()[i] == *n1.state);
    assert(third.closed_states()[j] == *n2.state);
}

/// Law: goals returned by any two calls of `next_path`, the second later than
/// the first on the same lists, have different states.
pub proof fn lemma_later_goals_differ<S: State, G: SearchGraph<S>>(
    g: &G,
    earlier: AStarSets<S>,
    later: AStarSets<S>,
    n1: Rc<Node<S>>,
    n2: Rc<Node<S>>,
)
    requires
        earlier.closed@.len() > 0,
        earlier.closed@.last() == n1,
        earlier.closed@.is_prefix_of(later.closed@),
        later.closed@.len() > earlier.closed@.len(),
        later.closed@.last() == n2,
        later.wf(g),
    ensures
        *n1.state != *n2.state,
{
    let i = earlier.closed@.len() - 1;
    let j = later.closed@.len() - 1;
    assert(later.closed@[i] == earlier.closed@[i]);
    assert(later.closed_states()[i] == *n1.state);
    assert(later.closed_states()[j] == *n2.state);
}

/// A* search of a `Problem` from its start state.
pub struct AStar<'a, S: State, P: Problem<S>> {
    problem: &'a P,
    sets: AStarSets<S>,
}

impl<'a, S: State, P: Problem<S>> AStar<'a, S, P> {
    pub closed spec fn spec_problem(&self) -> &'a P {
        self.problem
    }

    pub closed spec fn spec_sets(&self) -> AStarSets<S> {
        self.sets
    }

    /// The search's invariant: a well-posed problem, the lists well formed for its
    /// graph, all nodes descending from the start state, which is held, and each
    /// node's estimate its cost plus the problem's heuristic of its state.
    pub closed spec fn inv(&self) -> bool {
        &&& self.problem.well_posed()
        &&& self.sets.wf(&ProblemGraph { problem: self.problem })
        &&& self.sets.rooted_at(self.problem.spec_start_state())
        &&& self.sets.has_state(self.problem.spec_start_state())
        &&& self.sets.estimated(&ProblemEstimator { problem: self.problem })
        &&& self.sets.closed@.len() == 0 ==> fresh(self.sets)
    }

    /// Law: the invariant gives a well-posed problem, well-formed lists, and
    /// estimates that add the problem's heuristic to the cost from the root.
    pub proof fn lemma_inv(&self)
        requires
            self.inv(),
        ensures
            self.spec_problem().well_posed(),
            self.spec_sets().wf(&ProblemGraph { problem: self.spec_problem() }),
            self.spec_sets().rooted_at(self.spec_problem().spec_start_state()),
            self.spec_sets().estimated(&ProblemEstimator { problem: self.spec_problem() }),
    {
    }

    /// Starts a search: the open list holds the start state with its heuristic estimate.
    pub fn new(problem: &'a P) -> (r: Self)
        requires
            problem.well_posed(),
        ensures
            r.inv(),
            r.spec_problem() == problem,
            r.spec_sets().closed@.len() == 0,
            r.spec_sets().open@.len() == 1,
            *r.spec_sets().open@[0] == first_node(
                problem.spec_start_state(),
                problem.spec_heuristic(problem.spec_start_state()),
            ),
    {
        proof {
            problem.lemma_state_space();
        }
        let start_state = problem.start_state();
        let estimated_total_cost = problem.heuristic(&start_state);
        let mut sets = AStarSets::new();
        sets.create_and_add_first_node(start_state, estimated_total_cost);
        let r = AStar { problem, sets };
        proof {
            let g = ProblemGraph { problem };
            assert(node_ok(&g, *r.sets.open@[0]));
            assert(r.sets.open_states()[0] == problem.spec_start_state());
            let e = ProblemEstimator { problem };
            lemma_fresh_estimated(&e, r.sets);
        }
        r
    }

    /// Searches on to the next goal (see `search_outcome`).
    pub fn next_path(&mut self) -> (result: Option<Rc<Node<S>>>)
        requires
            old(self).inv(),
        ensures
            final(self).inv(),
            final(self).spec_problem() == old(self).spec_problem(),
            search_outcome(
                &ProblemGraph { problem: old(self).spec_problem() },
                old(self).spec_problem().spec_start_state(),
                old(self).spec_sets(),
                final(self).spec_sets(),
                result,
            ),
            final(self).spec_sets().estimated(&ProblemEstimator { problem: final(self).spec_problem() }),
            final(self).spec_sets().closed@.len() > old(self).spec_sets().closed@.len() ==> exists|k: int|
                {
                    &&& #[trigger] picked(
                        old(self).spec_sets(),
                        k,
                        final(self).spec_sets().closed@[old(self).spec_sets().closed@.len() as int],
                    )
                    &&& final(self).spec_sets().closed@.len() == old(self).spec_sets().closed@.len() + 1 && result is Some
                        ==> final(self).spec_sets().open@ == old(self).spec_sets().open@.take(k)
                },
            old(self).spec_sets().closed@.len() == 0 && consistent_heuristic(old(self).spec_problem()) ==> (
            result is Some ==> least_cost_goal(
                &ProblemGraph { problem: old(self).spec_problem() },
                old(self).spec_problem().spec_start_state(),
                result->0,
            )),
    {
        let graph = ProblemGraph { problem: self.problem };
        let mut estimator = ProblemEstimator { problem: self.problem };
        let ghost sets0 = self.sets;
        proof {
            if sets0.closed@.len() == 0 && consistent_heuristic(self.problem) {
                lemma_problem_consistent(self.problem);
                assert(root_state(*sets0.open@[0]) == self.problem.spec_start_state());
                assert(sets0.open_states()[0] == self.problem.spec_start_state());
            }
        }
        let result = next_path(&mut self.sets, &graph, &mut estimator);
        proof {
            if sets0.closed@.len() == 0 {
                assert(sets0.open_states()[0] == sets0.open_states()[0]);
                assert(!sets0.closed_states().contains(sets0.open_states()[0]));
            }
            assert(estimator == ProblemEstimator { problem: self.problem });
            lemma_search_outcome(&graph, self.problem.spec_start_state(), sets0, self.sets, result);
        }
        result
    }

    pub fn total_nodes_opened(&self) -> (r: usize)
        ensures
            r == self.spec_sets().open@.len(),
    {
        self.sets.open.len()
    }

    pub fn total_nodes_closed(&self) -> (r: usize)
        ensures
            r == self.spec_sets().closed@.len(),
    {
        self.sets.closed.len()
    }
}

/// Calls `std::rc::Rc::clone`, which returns a second pointer to the same
/// allocation; the contract claims only that the value behind it is the same.
#[verifier::external_body]
pub(crate) fn rc_clone<T>(r: &Rc<T>) -> (res: Rc<T>)
    ensures
        *res == **r,
{
    Rc::clone(r)
}

} // verus!
