//! A square grid of side `2^len_power`: from a cell one steps to any of the
//! (up to eight) neighbouring cells inside the grid, at cost 1; the heuristic
//! is the sum of the coordinate distances to the goal. Its abstractions halve
//! the coordinates, one level at a time.
use vstd::prelude::*;
use std::rc::Rc;
use crate::algorithms::a_star;
use crate::algorithms::a_star::{rc_values, lemma_index_injective, lemma_index_bound};
use crate::algorithms::hierarchical_a_star;

verus! {

#[derive(Copy, Clone, PartialEq, Eq, Structural, Hash, Debug)]
pub struct State(pub u32, pub u32);

impl a_star::State for State {
    fn same_state(&self, other: &Self) -> (r: bool) {
        self.0 == other.0 && self.1 == other.1
    }
}

#[derive(Debug)]
pub enum InvalidProblem {
    InvalidLength(u32),
}

/// `2^n`.
pub open spec fn two_to(n: nat) -> nat
    decreases n,
{
    if n == 0 {
        1
    } else {
        2 * two_to((n - 1) as nat)
    }
}

proof fn lemma_two_to_monotone(a: nat, b: nat)
    requires
        a <= b,
    ensures
        two_to(a) <= two_to(b),
        two_to(a) >= 1,
    decreases b,
{
    if a < b {
        lemma_two_to_monotone(a, (b - 1) as nat);
    } else if a > 0 {
        lemma_two_to_monotone((a - 1) as nat, (a - 1) as nat);
    }
}

proof fn lemma_two_to_31()
    ensures
        two_to(31) == 0x8000_0000,
{
    reveal_with_fuel(two_to, 32);
}

/// The cells one king's move away from `(x, y)` within `[1, bound]` in a
/// coordinate that moves, in the order in which they are produced: the column
/// to the left, the column to the right, then the same column.
pub open spec fn king_moves(bound: u32, x: u32, y: u32) -> Seq<(u32, u32)> {
    let down = y > 1;
    let up = y < bound;
    let left = if x > 1 {
        seq![((x - 1) as u32, y)] + (if down { seq![((x - 1) as u32, (y - 1) as u32)] } else { seq![] })
            + (if up { seq![((x - 1) as u32, (y + 1) as u32)] } else { seq![] })
    } else {
        seq![]
    };
    let right = if x < bound {
        seq![((x + 1) as u32, y)] + (if down { seq![((x + 1) as u32, (y - 1) as u32)] } else { seq![] })
            + (if up { seq![((x + 1) as u32, (y + 1) as u32)] } else { seq![] })
    } else {
        seq![]
    };
    left + right + (if down { seq![(x, (y - 1) as u32)] } else { seq![] }) + (if up { seq![(x, (y + 1) as u32)] } else { seq![] })
}

/// Produces `king_moves(bound, x, y)`.
fn neighbour_cells(bound: u32, x: u32, y: u32) -> (r: Vec<(u32, u32)>)
    ensures
        r@ == king_moves(bound, x, y),
{
    let mut result: Vec<(u32, u32)> = Vec::new();
    let ghost down = if y > 1 { seq![(x, (y - 1) as u32)] } else { Seq::<(u32, u32)>::empty() };
    if x > 1 {
        result.push((x - 1, y));
        if y > 1 {
            result.push((x - 1, y - 1));
        }
        if y < bound {
            result.push((x - 1, y + 1));
        }
    }
    let ghost left = result@;
    if x < bound {
        result.push((x + 1, y));
        if y > 1 {
            result.push((x + 1, y - 1));
        }
        if y < bound {
            result.push((x + 1, y + 1));
        }
    }
    let ghost left_right = result@;
    if y > 1 {
        result.push((x, y - 1));
    }
    if y < bound {
        result.push((x, y + 1));
    }
    proof {
        let k = king_moves(bound, x, y);
        assert(result@ =~= k);
    }
    result
}

/// The grid's cells for the moves of `king_moves`.
pub open spec fn grid_children(grid_len: u32, s: State) -> Seq<State> {
    king_moves(grid_len, s.0, s.1).map_values(|c: (u32, u32)| State(c.0, c.1))
}

pub struct Problem {
    grid_len: u32,
    start_state: State,
    goal_state: State,
}

impl Problem {
    /// The grid's side is a power of two from 8 to 2^31.
    #[verifier::type_invariant]
    spec fn side_is_power(&self) -> bool {
        exists|p: nat| 3 <= p <= 31 && self.grid_len == two_to(p)
    }

    pub closed spec fn spec_grid_len(&self) -> u32 {
        self.grid_len
    }

    pub closed spec fn spec_start(&self) -> State {
        self.start_state
    }

    pub closed spec fn spec_goal(&self) -> State {
        self.goal_state
    }

    /// A grid of side `2^len_power`; refused when `len_power <= 2`.
    pub fn create(len_power: u32, start_state: State, goal_state: State) -> (r: Result<Self, InvalidProblem>)
        requires
            len_power < 32,
        ensures
            match r {
                Err(InvalidProblem::InvalidLength(l)) => len_power <= 2 && l == len_power,
                Ok(p) => {
                    &&& len_power > 2
                    &&& p.spec_grid_len() == two_to(len_power as nat)
                    &&& p.spec_start() == start_state
                    &&& p.spec_goal() == goal_state
                },
            },
    {
        if len_power <= 2 {
            return Err(InvalidProblem::InvalidLength(len_power));
        }
        let grid_len = power_of_two(len_power);
        Ok(Problem { grid_len, start_state, goal_state })
    }

    /// The grid of side `2^len_power` from `(1, 1)` to `(len_power, len_power)`.
    pub fn create_basic(len_power: u32) -> (r: Result<Self, InvalidProblem>)
        requires
            len_power < 32,
        ensures
            match r {
                Err(InvalidProblem::InvalidLength(l)) => len_power <= 2 && l == len_power,
                Ok(p) => {
                    &&& len_power > 2
                    &&& p.spec_grid_len() == two_to(len_power as nat)
                    &&& p.spec_start() == State(1, 1)
                    &&& p.spec_goal() == State(len_power, len_power)
                },
            },
    {
        let start_state = State(1, 1);
        let goal_state = State(len_power, len_power);
        Self::create(len_power, start_state, goal_state)
    }

    /// The neighbouring cells of `state` within the grid (see `king_moves`).
    pub fn children(&self, state: &State) -> (r: Vec<Rc<State>>)
        ensures
            rc_values(r@) == grid_children(self.spec_grid_len(), *state),
    {
        let cells = neighbour_cells(self.grid_len, state.0, state.1);
        let mut result: Vec<Rc<State>> = Vec::new();
        let mut i: usize = 0;
        while i < cells.len()
            invariant
                i <= cells@.len(),
                cells@ == king_moves(self.grid_len, state.0, state.1),
                rc_values(result@) =~= grid_children(self.grid_len, *state).subrange(0, i as int),
            decreases cells@.len() - i,
        {
            let (x, y) = cells[i];
            let ghost before = result@;
            result.push(Rc::new(State(x, y)));
            proof {
                assert(grid_children(self.grid_len, *state)[i as int] == State(x, y));
                assert(rc_values(result@) =~= rc_values(before).push(State(x, y)));
                assert(grid_children(self.grid_len, *state).subrange(0, i + 1) =~= grid_children(
                    self.grid_len,
                    *state,
                ).subrange(0, i as int).push(State(x, y)));
            }
            i = i + 1;
        }
        proof {
            assert(grid_children(self.grid_len, *state).subrange(0, cells@.len() as int) =~= grid_children(
                self.grid_len,
                *state,
            ));
        }
        result
    }
}

/// `2^n` for `n < 32`.
fn power_of_two(n: u32) -> (r: u32)
    requires
        n < 32,
    ensures
        r == two_to(n as nat),
{
    let mut r: u32 = 1;
    let mut i: u32 = 0;
    while i < n
        invariant
            i <= n < 32,
            r == two_to(i as nat),
        decreases n - i,
    {
        proof {
            lemma_two_to_monotone(i as nat, 30);
            lemma_two_to_31();
            assert(two_to(31) == 2 * two_to(30));
        }
        r = r * 2;
        i = i + 1;
    }
    r
}

/// `a`'s distance to `b`.
pub open spec fn distance(a: u32, b: u32) -> nat {
    if a > b { (a - b) as nat } else { (b - a) as nat }
}

pub open spec fn max_of(a: nat, b: nat) -> nat {
    if a >= b { a } else { b }
}

/// The largest distance from `g` to a point of `[0, span]`.
pub open spec fn farthest(g: nat, span: nat) -> nat {
    if g <= span { max_of(g, (span - g) as nat) } else { g }
}

/// `c` is at most one step from `(x, y)` in each coordinate and stays within
/// `max(x, bound)` and `max(y, bound)`.
pub open spec fn near_move(bound: u32, x: u32, y: u32, c: (u32, u32)) -> bool {
    &&& c.0 <= max_of(x as nat, bound as nat)
    &&& c.1 <= max_of(y as nat, bound as nat)
    &&& distance(c.0, x) <= 1
    &&& distance(c.1, y) <= 1
}

proof fn lemma_concat_near(bound: u32, x: u32, y: u32, a: Seq<(u32, u32)>, b: Seq<(u32, u32)>)
    requires
        forall|i: int| 0 <= i < a.len() ==> near_move(bound, x, y, #[trigger] a[i]),
        forall|i: int| 0 <= i < b.len() ==> near_move(bound, x, y, #[trigger] b[i]),
    ensures
        forall|i: int| 0 <= i < (a + b).len() ==> near_move(bound, x, y, #[trigger] (a + b)[i]),
{
    assert forall|i: int| 0 <= i < (a + b).len() implies near_move(bound, x, y, #[trigger] (a + b)[i]) by {
        if i < a.len() {
            assert((a + b)[i] == a[i]);
        } else {
            assert((a + b)[i] == b[i - a.len()]);
        }
    }
}

/// Every king's move from `(x, y)` stays within `max(x, bound)` and
/// `max(y, bound)`, and moves each coordinate by at most one.
pub proof fn lemma_king_moves_bounds(bound: u32, x: u32, y: u32)
    ensures
        forall|i: int|
            0 <= i < king_moves(bound, x, y).len() ==> near_move(bound, x, y, #[trigger] king_moves(bound, x, y)[i]),
{
    let down = y > 1;
    let up = y < bound;
    let d1 = if down { seq![((x - 1) as u32, (y - 1) as u32)] } else { Seq::<(u32, u32)>::empty() };
    let u1 = if up { seq![((x - 1) as u32, (y + 1) as u32)] } else { Seq::<(u32, u32)>::empty() };
    let d2 = if down { seq![((x + 1) as u32, (y - 1) as u32)] } else { Seq::<(u32, u32)>::empty() };
    let u2 = if up { seq![((x + 1) as u32, (y + 1) as u32)] } else { Seq::<(u32, u32)>::empty() };
    let d3 = if down { seq![(x, (y - 1) as u32)] } else { Seq::<(u32, u32)>::empty() };
    let u3 = if up { seq![(x, (y + 1) as u32)] } else { Seq::<(u32, u32)>::empty() };
    let left = if x > 1 { seq![((x - 1) as u32, y)] + d1 + u1 } else { Seq::<(u32, u32)>::empty() };
    let right = if x < bound { seq![((x + 1) as u32, y)] + d2 + u2 } else { Seq::<(u32, u32)>::empty() };
    if x > 1 {
        lemma_concat_near(bound, x, y, seq![((x - 1) as u32, y)], d1);
        lemma_concat_near(bound, x, y, seq![((x - 1) as u32, y)] + d1, u1);
    }
    if x < bound {
        lemma_concat_near(bound, x, y, seq![((x + 1) as u32, y)], d2);
        lemma_concat_near(bound, x, y, seq![((x + 1) as u32, y)] + d2, u2);
    }
    lemma_concat_near(bound, x, y, left, right);
    lemma_concat_near(bound, x, y, left + right, d3);
    lemma_concat_near(bound, x, y, left + right + d3, u3);
    assert(king_moves(bound, x, y) == left + right + d3 + u3);
}

impl Problem {
    /// The largest column that a search from the start reaches.
    pub open spec fn span_x(&self) -> nat {
        max_of(self.spec_start().0 as nat, self.spec_grid_len() as nat)
    }

    /// The largest row that a search from the start reaches.
    pub open spec fn span_y(&self) -> nat {
        max_of(self.spec_start().1 as nat, self.spec_grid_len() as nat)
    }
}

impl a_star::Problem<State> for Problem {
    /// The heuristic cannot overflow: the farthest distances from the goal to a
    /// cell of the searched space sum to at most `u32::MAX`.
    open spec fn well_posed(&self) -> bool {
        farthest(self.spec_goal().0 as nat, self.span_x()) + farthest(self.spec_goal().1 as nat, self.span_y())
            <= u32::MAX
    }

    open spec fn spec_children(&self, state: State) -> Seq<State> {
        grid_children(self.spec_grid_len(), state)
    }

    open spec fn spec_is_goal(&self, state: State) -> bool {
        state == self.spec_goal()
    }

    open spec fn spec_cost(&self, state: State) -> u32 {
        1
    }

    open spec fn spec_heuristic(&self, state: State) -> u32 {
        (distance(self.spec_goal().0, state.0) + distance(self.spec_goal().1, state.1)) as u32
    }

    open spec fn spec_start_state(&self) -> State {
        self.spec_start()
    }

    /// Any cell whose distance to the goal fits in a `u32`.
    open spec fn in_domain(&self, state: State) -> bool {
        distance(self.spec_goal().0, state.0) + distance(self.spec_goal().1, state.1) <= u32::MAX
    }

    open spec fn in_state_space(&self, state: State) -> bool {
        state.0 <= self.span_x() && state.1 <= self.span_y()
    }

    open spec fn state_index(&self, state: State) -> nat {
        state.0 as nat * (self.span_y() + 1) + state.1 as nat
    }

    open spec fn state_space_size(&self) -> nat {
        (self.span_x() + 1) * (self.span_y() + 1)
    }

    proof fn lemma_state_space(&self) {
        assert forall|s: State| #[trigger] self.in_state_space(s) implies self.state_index(s) < self.state_space_size() by {
            lemma_index_bound(s.0 as nat, s.1 as nat, self.span_x() + 1, self.span_y() + 1);
        }
        assert forall|s: State, t: State|
            self.in_state_space(s) && self.in_state_space(t) && #[trigger] self.state_index(s)
                == #[trigger] self.state_index(t) implies s == t by {
            lemma_index_injective(s.0 as nat, s.1 as nat, t.0 as nat, t.1 as nat, self.span_y() + 1);
        }
        assert forall|s: State, i: int|
            self.in_state_space(s) && 0 <= i < self.spec_children(s).len() implies self.in_state_space(
            #[trigger] self.spec_children(s)[i],
        ) by {
            lemma_king_moves_bounds(self.spec_grid_len(), s.0, s.1);
            let c = king_moves(self.spec_grid_len(), s.0, s.1)[i];
            assert(near_move(self.spec_grid_len(), s.0, s.1, c));
            assert(self.spec_children(s)[i] == State(c.0, c.1));
        }
    }

    fn children(&self, state: &State) -> (r: Vec<Rc<State>>) {
        self.children(state)
    }

    fn is_goal(&self, state: &State) -> (r: bool) {
        self.goal_state == *state
    }

    fn cost(&self, _state: &State) -> (r: u32) {
        1
    }

    fn heuristic(&self, state: &State) -> (r: u32) {
        abs_diff(self.goal_state.0, state.0) + abs_diff(self.goal_state.1, state.1)
    }

    fn start_state(&self) -> (r: State) {
        self.start_state
    }
}

/// `u32::abs_diff`.
fn abs_diff(a: u32, b: u32) -> (r: u32)
    ensures
        r == distance(a, b),
{
    if a > b {
        a - b
    } else {
        b - a
    }
}

/// A cell of the grid seen at a level of abstraction: at level `k` the
/// coordinates of a cell are divided by `2^k`.
#[derive(Copy, Clone, PartialEq, Eq, Hash, Debug)]
pub struct AbstractState {
    pub level: u32,
    pub coords: (u32, u32),
}

impl a_star::State for AbstractState {
    fn same_state(&self, other: &Self) -> (r: bool) {
        self.level == other.level && self.coords.0 == other.coords.0 && self.coords.1 == other.coords.1
    }
}

/// The first abstraction of a cell: level 1, coordinates halved.
pub open spec fn abstract_original_of(state: State) -> AbstractState {
    AbstractState { level: 1, coords: (state.0 / 2, state.1 / 2) }
}

/// The next abstraction of `a`, while its level stays within `max_level`.
pub open spec fn further_abstract_of(a: AbstractState, max_level: u32) -> Option<AbstractState> {
    if a.level + 1 <= max_level {
        Some(AbstractState { level: (a.level + 1) as u32, coords: (a.coords.0 / 2, a.coords.1 / 2) })
    } else {
        None
    }
}

/// The abstraction of `goal` at level `i + 1`.
pub open spec fn abstract_goal_at(goal: State, i: nat) -> AbstractState
    decreases i,
{
    if i == 0 {
        abstract_original_of(goal)
    } else {
        let prev = abstract_goal_at(goal, (i - 1) as nat);
        AbstractState { level: (prev.level + 1) as u32, coords: (prev.coords.0 / 2, prev.coords.1 / 2) }
    }
}

/// The abstractions of `goal` at the levels 1 to `max_level` (at least level 1).
pub open spec fn abstract_goals_of(goal: State, max_level: u32) -> Seq<AbstractState> {
    Seq::new(if max_level >= 1 { max_level as nat } else { 1 }, |i: int| abstract_goal_at(goal, i as nat))
}

proof fn lemma_abstract_goal_level(goal: State, i: nat)
    requires
        i < u32::MAX,
    ensures
        abstract_goal_at(goal, i).level == i + 1,
    decreases i,
{
    if i > 0 {
        lemma_abstract_goal_level(goal, (i - 1) as nat);
    }
}

/// `further_abstract_of`.
fn further_abstract(abstract_state: &AbstractState, max_abstraction_level: u32) -> (r: Option<AbstractState>)
    requires
        abstract_state.level < u32::MAX,
    ensures
        r == further_abstract_of(*abstract_state, max_abstraction_level),
{
    let next_level = abstract_state.level + 1;
    if next_level <= max_abstraction_level {
        Some(AbstractState { level: next_level, coords: (abstract_state.coords.0 / 2, abstract_state.coords.1 / 2) })
    } else {
        None
    }
}

/// `abstract_original_of`.
fn abstract_original(state: &State) -> (r: AbstractState)
    ensures
        r == abstract_original_of(*state),
{
    AbstractState { level: 1, coords: (state.0 / 2, state.1 / 2) }
}

/// The abstractions of the goal, one per level.
fn compute_abstract_goals(problem: &Problem, max_abstraction_level: u32) -> (r: Vec<AbstractState>)
    requires
        max_abstraction_level < u32::MAX,
    ensures
        r@ == abstract_goals_of(problem.spec_goal(), max_abstraction_level),
{
    let ghost goal = problem.spec_goal();
    let mut result: Vec<AbstractState> = Vec::new();
    let mut current_abstract_goal = abstract_original(&problem.goal_state);
    result.push(current_abstract_goal);
    loop
        invariant
            goal == problem.spec_goal(),
            max_abstraction_level < u32::MAX,
            result@.len() >= 1,
            result@.len() <= if max_abstraction_level >= 1 { max_abstraction_level as nat } else { 1 },
            current_abstract_goal == abstract_goal_at(goal, (result@.len() - 1) as nat),
            current_abstract_goal.level == result@.len(),
            forall|i: int| 0 <= i < result@.len() ==> #[trigger] result@[i] == abstract_goal_at(goal, i as nat),
        decreases max_abstraction_level + 1 - result@.len(),
    {
        match further_abstract(&current_abstract_goal, max_abstraction_level) {
            Some(next_abstract_goal) => {
                let ghost n = result@.len();
                result.push(next_abstract_goal);
                current_abstract_goal = next_abstract_goal;
                proof {
                    assert(abstract_goal_at(goal, n) == next_abstract_goal);
                }
            },
            None => {
                proof {
                    let want = abstract_goals_of(goal, max_abstraction_level);
                    assert(result@.len() == want.len());
                    assert forall|i: int| 0 <= i < want.len() implies result@[i] == want[i] by {
                        assert(result@[i] == abstract_goal_at(goal, i as nat));
                    }
                    assert(result@ =~= want);
                }
                return result;
            },
        }
    }
}

/// `u32::ilog2`: the exponent of the largest power of two not above `n`.
fn ilog2(n: u32) -> (r: u32)
    requires
        n >= 1,
    ensures
        two_to(r as nat) <= n < two_to(r as nat + 1),
        r < 32,
{
    let mut v: u32 = n;
    let mut r: u32 = 0;
    assert(two_to(0) == 1);
    while v > 1
        invariant
            1 <= v <= n,
            r < 32,
            two_to(r as nat) * v <= n < two_to(r as nat) * (v + 1),
            two_to(r as nat) * v >= two_to(r as nat),
            two_to(r as nat) <= n,
        decreases v,
    {
        let ghost t = two_to(r as nat);
        proof {
            lemma_two_to_monotone(0, r as nat);
            assert(two_to(0) == 1);
            assert(2 * t * (v / 2) <= t * v) by (nonlinear_arith)
                requires
                    v >= 2,
                    t >= 1,
            ;
            assert(t * (v + 1) <= 2 * t * (v / 2 + 1)) by (nonlinear_arith)
                requires
                    v >= 2,
                    t >= 1,
            ;
            assert(2 * t * (v / 2) >= 2 * t) by (nonlinear_arith)
                requires
                    v >= 2,
                    t >= 1,
            ;
            assert(two_to(r as nat + 1) == 2 * t);
            if r >= 31 {
                lemma_two_to_monotone(31, r as nat);
                lemma_two_to_31();
                assert(t * v >= t * 2) by (nonlinear_arith)
                    requires
                        v >= 2,
                        t >= 1,
                ;
            }
        }
        v = v / 2;
        r = r + 1;
        proof {
            assert(two_to(r as nat) * v == 2 * t * v);
        }
    }
    proof {
        assert(v == 1);
        assert(two_to(r as nat + 1) == 2 * two_to(r as nat));
    }
    r
}

proof fn lemma_two_to_strict(a: nat, b: nat)
    requires
        a < b,
    ensures
        two_to(a) < two_to(b),
    decreases b,
{
    lemma_two_to_monotone(a, (b - 1) as nat);
    assert(two_to(b) == 2 * two_to((b - 1) as nat));
}

proof fn lemma_two_to_injective(a: nat, b: nat)
    requires
        two_to(a) == two_to(b),
    ensures
        a == b,
{
    if a < b {
        lemma_two_to_strict(a, b);
    } else if b < a {
        lemma_two_to_strict(b, a);
    }
}

/// The exponent of a power of two.
proof fn lemma_log_of_power(r: nat, p: nat)
    requires
        two_to(r) <= two_to(p) < two_to(r + 1),
    ensures
        r == p,
{
    if r < p {
        lemma_two_to_monotone(r + 1, p);
    } else if r > p {
        lemma_two_to_strict(p, r);
    }
}

pub struct HAProblem {
    max_abstraction_level: u32,
    problem: Problem,
    abstract_goals: Vec<AbstractState>,
}

impl HAProblem {
    /// The abstraction levels go up to the exponent of the grid's side, and the
    /// abstract goals are the goal's abstractions at each level.
    #[verifier::type_invariant]
    spec fn levels_match(&self) -> bool {
        &&& 3 <= self.max_abstraction_level <= 31
        &&& self.problem.spec_grid_len() == two_to(self.max_abstraction_level as nat)
        &&& self.abstract_goals@ == abstract_goals_of(self.problem.spec_goal(), self.max_abstraction_level)
    }

    pub closed spec fn spec_problem(&self) -> &Problem {
        &self.problem
    }

    pub closed spec fn spec_max_level(&self) -> u32 {
        self.max_abstraction_level
    }

    pub closed spec fn spec_abstract_goals(&self) -> Seq<AbstractState> {
        self.abstract_goals@
    }

    /// The abstract goals are the goal's abstractions, one per level from 1 to
    /// the last; every constructor makes them so.
    pub open spec fn goals_are_abstractions(&self) -> bool {
        &&& 1 <= self.spec_max_level() < u32::MAX
        &&& self.spec_abstract_goals() == abstract_goals_of(self.spec_problem().spec_goal(), self.spec_max_level())
    }

    /// The largest abstract coordinate that a search reaches.
    pub open spec fn abstract_span(&self) -> nat {
        max_of(max_of(self.spec_problem().span_x(), self.spec_problem().span_y()), self.spec_max_level() as nat)
    }

    pub fn create(len_power: u32, start_state: State, goal_state: State) -> (r: Result<Self, InvalidProblem>)
        requires
            len_power < 32,
        ensures
            match r {
                Err(InvalidProblem::InvalidLength(l)) => len_power <= 2 && l == len_power,
                Ok(h) => {
                    &&& len_power > 2
                    &&& h.spec_problem().spec_grid_len() == two_to(len_power as nat)
                    &&& h.spec_problem().spec_start() == start_state
                    &&& h.spec_problem().spec_goal() == goal_state
                    &&& h.spec_max_level() == len_power
                    &&& h.spec_abstract_goals() == abstract_goals_of(goal_state, len_power)
                },
            },
    {
        let problem = match Problem::create(len_power, start_state, goal_state) {
            Ok(p) => p,
            Err(e) => {
                return Err(e);
            },
        };
        let r = Self::create_from_problem(problem);
        proof {
            if r is Ok {
                lemma_two_to_injective(r->Ok_0.spec_max_level() as nat, len_power as nat);
            }
        }
        r
    }

    pub fn create_basic(len_power: u32) -> (r: Result<Self, InvalidProblem>)
        requires
            len_power < 32,
        ensures
            match r {
                Err(InvalidProblem::InvalidLength(l)) => len_power <= 2 && l == len_power,
                Ok(h) => {
                    &&& len_power > 2
                    &&& h.spec_problem().spec_grid_len() == two_to(len_power as nat)
                    &&& h.spec_problem().spec_start() == State(1, 1)
                    &&& h.spec_problem().spec_goal() == State(len_power, len_power)
                    &&& h.spec_max_level() == len_power
                    &&& h.spec_abstract_goals() == abstract_goals_of(State(len_power, len_power), len_power)
                },
            },
    {
        let problem = match Problem::create_basic(len_power) {
            Ok(p) => p,
            Err(e) => {
                return Err(e);
            },
        };
        let r = Self::create_from_problem(problem);
        proof {
            if r is Ok {
                lemma_two_to_injective(r->Ok_0.spec_max_level() as nat, len_power as nat);
            }
        }
        r
    }

    /// The hierarchy over `problem`: as many levels as the exponent of its side.
    pub fn create_from_problem(problem: Problem) -> (r: Result<Self, InvalidProblem>)
        ensures
            r matches Ok(h) && {
                &&& *h.spec_problem() == problem
                &&& problem.spec_grid_len() == two_to(h.spec_max_level() as nat)
                &&& 3 <= h.spec_max_level() <= 31
                &&& h.spec_abstract_goals() == abstract_goals_of(problem.spec_goal(), h.spec_max_level())
            },
    {
        proof {
            use_type_invariant(&problem);
            let p = choose|p: nat| 3 <= p <= 31 && problem.grid_len == two_to(p);
            lemma_two_to_monotone(0, p);
            assert(two_to(0) == 1);
        }
        let max_abstraction_level = ilog2(problem.grid_len);
        let abstract_goals = compute_abstract_goals(&problem, max_abstraction_level);
        proof {
            let p = choose|p: nat| 3 <= p <= 31 && problem.grid_len == two_to(p);
            lemma_log_of_power(max_abstraction_level as nat, p);
        }
        Ok(HAProblem { problem, max_abstraction_level, abstract_goals })
    }
}

/// The abstract neighbours of `a`: its king's moves within `[1, bound]`, at `a`'s level.
pub open spec fn abstract_children_of(bound: u32, a: AbstractState) -> Seq<AbstractState> {
    king_moves(bound, a.coords.0, a.coords.1).map_values(|c: (u32, u32)| AbstractState { level: a.level, coords: c })
}

/// `a` is the abstract goal of its level.
pub open spec fn is_abstract_goal_in(goals: Seq<AbstractState>, a: AbstractState) -> bool {
    1 <= a.level <= goals.len() && goals[a.level - 1] == a
}

impl hierarchical_a_star::HAProblem<State, AbstractState> for HAProblem {
    type Original = Problem;

    /// The original problem is well posed.
    open spec fn well_posed(&self) -> bool {
        &&& <Problem as a_star::Problem<State>>::well_posed(self.spec_problem())
        &&& 1 <= self.spec_max_level() < u32::MAX
    }

    open spec fn spec_original_problem(&self) -> &Problem {
        self.spec_problem()
    }

    open spec fn spec_abstract_original(&self, state: State) -> AbstractState {
        abstract_original_of(state)
    }

    open spec fn spec_further_abstract(&self, state: AbstractState) -> Option<AbstractState> {
        further_abstract_of(state, self.spec_max_level())
    }

    open spec fn spec_abstract_children(&self, state: AbstractState) -> Seq<AbstractState> {
        abstract_children_of(self.spec_max_level(), state)
    }

    open spec fn spec_abstract_cost(&self, state: AbstractState) -> u32 {
        1
    }

    open spec fn spec_is_abstract_goal(&self, state: AbstractState) -> bool {
        is_abstract_goal_in(self.spec_abstract_goals(), state)
    }

    /// Any abstract state of a level from 1 below `u32::MAX`.
    open spec fn in_abstract_domain(&self, state: AbstractState) -> bool {
        1 <= state.level < u32::MAX
    }

    open spec fn in_abstract_space(&self, state: AbstractState) -> bool {
        &&& 1 <= state.level <= self.spec_max_level()
        &&& state.coords.0 <= self.abstract_span()
        &&& state.coords.1 <= self.abstract_span()
    }

    open spec fn abstract_index(&self, state: AbstractState) -> nat {
        (state.level as nat * (self.abstract_span() + 1) + state.coords.0 as nat) * (self.abstract_span() + 1)
            + state.coords.1 as nat
    }

    open spec fn abstract_space_size(&self) -> nat {
        (self.spec_max_level() as nat + 1) * (self.abstract_span() + 1) * (self.abstract_span() + 1)
    }

    open spec fn abstraction_rank(&self, state: AbstractState) -> nat {
        (self.spec_max_level() - state.level) as nat
    }

    proof fn lemma_abstraction(&self) {
        let w = self.abstract_span() + 1;
        let l = self.spec_max_level() as nat;
        assert forall|a: AbstractState| #[trigger] self.in_abstract_space(a) implies self.abstract_index(a)
            < self.abstract_space_size() by {
            lemma_index_bound(a.level as nat, a.coords.0 as nat, l + 1, w);
            lemma_index_bound(a.level as nat * w + a.coords.0 as nat, a.coords.1 as nat, (l + 1) * w, w);
        }
        assert forall|a: AbstractState, b: AbstractState|
            self.in_abstract_space(a) && self.in_abstract_space(b) && #[trigger] self.abstract_index(a)
                == #[trigger] self.abstract_index(b) implies a == b by {
            lemma_index_injective(
                a.level as nat * w + a.coords.0 as nat,
                a.coords.1 as nat,
                b.level as nat * w + b.coords.0 as nat,
                b.coords.1 as nat,
                w,
            );
            lemma_index_injective(a.level as nat, a.coords.0 as nat, b.level as nat, b.coords.0 as nat, w);
        }
        assert forall|a: AbstractState, i: int|
            self.in_abstract_space(a) && 0 <= i < self.spec_abstract_children(a).len() implies {
            &&& self.in_abstract_space(#[trigger] self.spec_abstract_children(a)[i])
            &&& self.abstraction_rank(self.spec_abstract_children(a)[i]) <= self.abstraction_rank(a)
        } by {
            lemma_king_moves_bounds(self.spec_max_level(), a.coords.0, a.coords.1);
            let c = king_moves(self.spec_max_level(), a.coords.0, a.coords.1)[i];
            assert(near_move(self.spec_max_level(), a.coords.0, a.coords.1, c));
            assert(self.spec_abstract_children(a)[i] == AbstractState { level: a.level, coords: c });
        }
    }

    fn original_problem(&self) -> (r: &Problem) {
        &self.problem
    }

    fn abstract_original(&self, state: &State) -> (r: AbstractState) {
        abstract_original(state)
    }

    fn further_abstract(&self, state: &AbstractState) -> (r: Option<AbstractState>) {
        further_abstract(state, self.max_abstraction_level)
    }

    /// The king's moves of `abstract_state` within `[1, ilog2(grid_len)]`.
    fn abstract_children(&self, abstract_state: &AbstractState) -> (r: Vec<Rc<AbstractState>>) {
        proof {
            use_type_invariant(self);
            lemma_two_to_monotone(0, self.max_abstraction_level as nat);
            assert(two_to(0) == 1);
        }
        let max = ilog2(self.problem.grid_len);
        proof {
            lemma_log_of_power(max as nat, self.max_abstraction_level as nat);
        }
        let cells = neighbour_cells(max, abstract_state.coords.0, abstract_state.coords.1);
        let ghost want = abstract_children_of(max, *abstract_state);
        let mut result: Vec<Rc<AbstractState>> = Vec::new();
        let mut i: usize = 0;
        while i < cells.len()
            invariant
                i <= cells@.len(),
                cells@ == king_moves(max, abstract_state.coords.0, abstract_state.coords.1),
                want == abstract_children_of(max, *abstract_state),
                rc_values(result@) =~= want.subrange(0, i as int),
            decreases cells@.len() - i,
        {
            let (x, y) = cells[i];
            let new_state = AbstractState { level: abstract_state.level, coords: (x, y) };
            let ghost before = result@;
            result.push(Rc::new(new_state));
            proof {
                assert(want[i as int] == new_state);
                assert(rc_values(result@) =~= rc_values(before).push(new_state));
                assert(want.subrange(0, i + 1) =~= want.subrange(0, i as int).push(new_state));
            }
            i = i + 1;
        }
        proof {
            assert(want.subrange(0, cells@.len() as int) =~= want);
        }
        result
    }

    fn abstract_cost(&self, _abstract_state: &AbstractState) -> (r: u32) {
        1
    }

    /// Whether `abstract_state` is the abstract goal of its level.
    fn is_abstract_goal(&self, abstract_state: &AbstractState) -> (r: bool) {
        let index = abstract_state.level as usize - 1;
        if index < self.abstract_goals.len() {
            a_star::State::same_state(&self.abstract_goals[index], abstract_state)
        } else {
            false
        }
    }
}

/// `c` is a king's move from `(x, y)` that stays within `[1, bound]`.
pub open spec fn neighbour_in_grid(bound: u32, x: u32, y: u32, c: (u32, u32)) -> bool {
    &&& c != (x, y)
    &&& distance(c.0, x) <= 1
    &&& distance(c.1, y) <= 1
    &&& 1 <= c.0 <= bound
    &&& 1 <= c.1 <= bound
}

proof fn lemma_contains_concat<A>(a: Seq<A>, b: Seq<A>, x: A)
    ensures
        (a + b).contains(x) <==> a.contains(x) || b.contains(x),
{
    if a.contains(x) {
        let i = choose|i: int| 0 <= i < a.len() && a[i] == x;
        assert((a + b)[i] == x);
    }
    if b.contains(x) {
        let i = choose|i: int| 0 <= i < b.len() && b[i] == x;
        assert((a + b)[a.len() + i] == x);
    }
    if (a + b).contains(x) {
        let i = choose|i: int| 0 <= i < (a + b).len() && (a + b)[i] == x;
        if i < a.len() {
            assert(a[i] == x);
        } else {
            assert(b[i - a.len()] == x);
        }
    }
}

/// Law: from a cell inside the grid, the king's moves are exactly the
/// neighbouring cells inside the grid.
pub proof fn lemma_king_moves_are_neighbours(bound: u32, x: u32, y: u32, c: (u32, u32))
    requires
        1 <= x <= bound,
        1 <= y <= bound,
    ensures
        king_moves(bound, x, y).contains(c) <==> neighbour_in_grid(bound, x, y, c),
{
    let down = y > 1;
    let up = y < bound;
    let d1 = if down { seq![((x - 1) as u32, (y - 1) as u32)] } else { Seq::<(u32, u32)>::empty() };
    let u1 = if up { seq![((x - 1) as u32, (y + 1) as u32)] } else { Seq::<(u32, u32)>::empty() };
    let d2 = if down { seq![((x + 1) as u32, (y - 1) as u32)] } else { Seq::<(u32, u32)>::empty() };
    let u2 = if up { seq![((x + 1) as u32, (y + 1) as u32)] } else { Seq::<(u32, u32)>::empty() };
    let d3 = if down { seq![(x, (y - 1) as u32)] } else { Seq::<(u32, u32)>::empty() };
    let u3 = if up { seq![(x, (y + 1) as u32)] } else { Seq::<(u32, u32)>::empty() };
    let l0 = if x > 1 { seq![((x - 1) as u32, y)] } else { Seq::<(u32, u32)>::empty() };
    let r0 = if x < bound { seq![((x + 1) as u32, y)] } else { Seq::<(u32, u32)>::empty() };
    let left = if x > 1 { seq![((x - 1) as u32, y)] + d1 + u1 } else { Seq::<(u32, u32)>::empty() };
    let right = if x < bound { seq![((x + 1) as u32, y)] + d2 + u2 } else { Seq::<(u32, u32)>::empty() };
    assert(king_moves(bound, x, y) == left + right + d3 + u3);
    lemma_contains_concat(left + right + d3, u3, c);
    lemma_contains_concat(left + right, d3, c);
    lemma_contains_concat(left, right, c);
    if x > 1 {
        lemma_contains_concat(seq![((x - 1) as u32, y)] + d1, u1, c);
        lemma_contains_concat(seq![((x - 1) as u32, y)], d1, c);
    }
    if x < bound {
        lemma_contains_concat(seq![((x + 1) as u32, y)] + d2, u2, c);
        lemma_contains_concat(seq![((x + 1) as u32, y)], d2, c);
    }
    assert(seq![((x - 1) as u32, y)].contains(c) <==> c == ((x - 1) as u32, y)) by {
        if c == ((x - 1) as u32, y) {
            assert(seq![((x - 1) as u32, y)][0] == c);
        }
    }
    assert(seq![((x + 1) as u32, y)].contains(c) <==> c == ((x + 1) as u32, y)) by {
        if c == ((x + 1) as u32, y) {
            assert(seq![((x + 1) as u32, y)][0] == c);
        }
    }
    assert(d1.contains(c) <==> down && c == ((x - 1) as u32, (y - 1) as u32)) by {
        if down && c == ((x - 1) as u32, (y - 1) as u32) {
            assert(d1[0] == c);
        }
    }
    assert(u1.contains(c) <==> up && c == ((x - 1) as u32, (y + 1) as u32)) by {
        if up && c == ((x - 1) as u32, (y + 1) as u32) {
            assert(u1[0] == c);
        }
    }
    assert(d2.contains(c) <==> down && c == ((x + 1) as u32, (y - 1) as u32)) by {
        if down && c == ((x + 1) as u32, (y - 1) as u32) {
            assert(d2[0] == c);
        }
    }
    assert(u2.contains(c) <==> up && c == ((x + 1) as u32, (y + 1) as u32)) by {
        if up && c == ((x + 1) as u32, (y + 1) as u32) {
            assert(u2[0] == c);
        }
    }
    assert(d3.contains(c) <==> down && c == (x, (y - 1) as u32)) by {
        if down && c == (x, (y - 1) as u32) {
            assert(d3[0] == c);
        }
    }
    assert(u3.contains(c) <==> up && c == (x, (y + 1) as u32)) by {
        if up && c == (x, (y + 1) as u32) {
            assert(u3[0] == c);
        }
    }
}

/// Law: from a cell inside the grid, the children are exactly the neighbouring
/// cells inside the grid, so a cell inside the grid is a child of each of its
/// children.
pub proof fn lemma_grid_children_are_neighbours(grid_len: u32, s: State, t: State)
    requires
        1 <= s.0 <= grid_len,
        1 <= s.1 <= grid_len,
    ensures
        grid_children(grid_len, s).contains(t) <==> neighbour_in_grid(grid_len, s.0, s.1, (t.0, t.1)),
        grid_children(grid_len, s).contains(t) ==> grid_children(grid_len, t).contains(s),
{
    let k = king_moves(grid_len, s.0, s.1);
    lemma_king_moves_are_neighbours(grid_len, s.0, s.1, (t.0, t.1));
    if grid_children(grid_len, s).contains(t) {
        let i = choose|i: int| 0 <= i < grid_children(grid_len, s).len() && grid_children(grid_len, s)[i] == t;
        assert(k[i] == (t.0, t.1));
        assert(k.contains((t.0, t.1)));
        lemma_king_moves_are_neighbours(grid_len, t.0, t.1, (s.0, s.1));
        let kt = king_moves(grid_len, t.0, t.1);
        let j = choose|j: int| 0 <= j < kt.len() && kt[j] == (s.0, s.1);
        assert(grid_children(grid_len, t)[j] == s);
    }
    if k.contains((t.0, t.1)) {
        let i = choose|i: int| 0 <= i < k.len() && k[i] == (t.0, t.1);
        assert(grid_children(grid_len, s)[i] == t);
    }
}

/// Law: one step along a row or a column toward the goal lowers the heuristic
/// by exactly one (with 0 at the goal, this fixes it as the distance in steps
/// along rows and columns).
pub proof fn lemma_heuristic_step_toward_goal(problem: &Problem, s: State)
    requires
        <Problem as a_star::Problem<State>>::in_domain(problem, s),
    ensures
        ({
            let g = problem.spec_goal();
            let h = |t: State| <Problem as a_star::Problem<State>>::spec_heuristic(problem, t) as int;
            &&& s.0 < g.0 ==> h(State((s.0 + 1) as u32, s.1)) + 1 == h(s)
            &&& s.0 > g.0 ==> h(State((s.0 - 1) as u32, s.1)) + 1 == h(s)
            &&& s.1 < g.1 ==> h(State(s.0, (s.1 + 1) as u32)) + 1 == h(s)
            &&& s.1 > g.1 ==> h(State(s.0, (s.1 - 1) as u32)) + 1 == h(s)
        }),
{
}

/// Law: the heuristic is 0 exactly at the goal.
pub proof fn lemma_heuristic_zero_at_goal(problem: &Problem, s: State)
    requires
        <Problem as a_star::Problem<State>>::well_posed(problem),
        <Problem as a_star::Problem<State>>::in_state_space(problem, s),
    ensures
        (<Problem as a_star::Problem<State>>::spec_heuristic(problem, s) == 0) <==> s == problem.spec_goal(),
{
}

/// Law: the abstract children of a cell inside `[1, max]^2` (`max` the number of
/// levels) are exactly its king's-move neighbours inside `[1, max]^2`, at its level.
pub proof fn lemma_abstract_children_are_neighbours(h: &HAProblem, a: AbstractState, c: AbstractState)
    requires
        1 <= a.coords.0 <= h.spec_max_level(),
        1 <= a.coords.1 <= h.spec_max_level(),
    ensures
        <HAProblem as hierarchical_a_star::HAProblem<State, AbstractState>>::spec_abstract_children(h, a).contains(c)
            <==> (c.level == a.level && neighbour_in_grid(h.spec_max_level(), a.coords.0, a.coords.1, c.coords)),
{
    let max = h.spec_max_level();
    let moves = king_moves(max, a.coords.0, a.coords.1);
    let kids = <HAProblem as hierarchical_a_star::HAProblem<State, AbstractState>>::spec_abstract_children(h, a);
    lemma_king_moves_are_neighbours(max, a.coords.0, a.coords.1, c.coords);
    assert(kids.len() == moves.len());
    if kids.contains(c) {
        let k = choose|k: int| 0 <= k < kids.len() && kids[k] == c;
        assert(kids[k] == AbstractState { level: a.level, coords: moves[k] });
        assert(moves.contains(c.coords));
    }
    if c.level == a.level && neighbour_in_grid(max, a.coords.0, a.coords.1, c.coords) {
        let k = choose|k: int| 0 <= k < moves.len() && moves[k] == c.coords;
        assert(kids[k] == AbstractState { level: a.level, coords: moves[k] });
        assert(kids[k] == c);
    }
}

/// Law: the king's moves from a cell are pairwise different cells.
pub proof fn lemma_king_moves_distinct(bound: u32, x: u32, y: u32)
    ensures
        king_moves(bound, x, y).no_duplicates(),
{
    let down = y > 1;
    let up = y < bound;
    let d1 = if down { seq![((x - 1) as u32, (y - 1) as u32)] } else { Seq::<(u32, u32)>::empty() };
    let u1 = if up { seq![((x - 1) as u32, (y + 1) as u32)] } else { Seq::<(u32, u32)>::empty() };
    let d2 = if down { seq![((x + 1) as u32, (y - 1) as u32)] } else { Seq::<(u32, u32)>::empty() };
    let u2 = if up { seq![((x + 1) as u32, (y + 1) as u32)] } else { Seq::<(u32, u32)>::empty() };
    let d3 = if down { seq![(x, (y - 1) as u32)] } else { Seq::<(u32, u32)>::empty() };
    let u3 = if up { seq![(x, (y + 1) as u32)] } else { Seq::<(u32, u32)>::empty() };
    let l0 = seq![((x - 1) as u32, y)];
    let r0 = seq![((x + 1) as u32, y)];
    let left = if x > 1 { l0 + d1 + u1 } else { Seq::<(u32, u32)>::empty() };
    let right = if x < bound { r0 + d2 + u2 } else { Seq::<(u32, u32)>::empty() };
    assert(king_moves(bound, x, y) == left + right + d3 + u3);
    if x > 1 {
        vstd::seq_lib::lemma_no_dup_in_concat(l0, d1);
        vstd::seq_lib::lemma_no_dup_in_concat(l0 + d1, u1);
        assert forall|i: int| 0 <= i < left.len() implies #[trigger] left[i].0 == x - 1 by {
            if i == 0 {
                assert(left[i] == l0[0]);
            } else if i < (l0 + d1).len() {
                assert(left[i] == d1[i - 1]);
            } else {
                assert(left[i] == u1[i - (l0 + d1).len()]);
            }
        }
    }
    if x < bound {
        vstd::seq_lib::lemma_no_dup_in_concat(r0, d2);
        vstd::seq_lib::lemma_no_dup_in_concat(r0 + d2, u2);
        assert forall|i: int| 0 <= i < right.len() implies #[trigger] right[i].0 == x + 1 by {
            if i == 0 {
                assert(right[i] == r0[0]);
            } else if i < (r0 + d2).len() {
                assert(right[i] == d2[i - 1]);
            } else {
                assert(right[i] == u2[i - (r0 + d2).len()]);
            }
        }
    }
    vstd::seq_lib::lemma_no_dup_in_concat(left, right);
    let lr = left + right;
    assert forall|i: int| 0 <= i < lr.len() implies #[trigger] lr[i].0 != x by {
        if i < left.len() {
            assert(lr[i] == left[i]);
        } else {
            assert(lr[i] == right[i - left.len()]);
        }
    }
    vstd::seq_lib::lemma_no_dup_in_concat(lr, d3);
    if up {
        assert forall|i: int| 0 <= i < (lr + d3).len() implies #[trigger] (lr + d3)[i] != (x, (y + 1) as u32) by {
            if i < lr.len() {
                assert((lr + d3)[i] == lr[i]);
            } else {
                assert((lr + d3)[i] == d3[i - lr.len()]);
            }
        }
    }
    vstd::seq_lib::lemma_no_dup_in_concat(lr + d3, u3);
}

/// Law: the children of a cell are pairwise different cells.
pub proof fn lemma_grid_children_distinct(grid_len: u32, s: State)
    ensures
        grid_children(grid_len, s).no_duplicates(),
{
    lemma_king_moves_distinct(grid_len, s.0, s.1);
    let k = king_moves(grid_len, s.0, s.1);
    let kids = grid_children(grid_len, s);
    assert forall|i: int, j: int| 0 <= i < kids.len() && 0 <= j < kids.len() && i != j implies kids[i] != kids[j] by {
        assert(kids[i] == State(k[i].0, k[i].1));
        assert(kids[j] == State(k[j].0, k[j].1));
    }
}

/// Law: the abstract children of a cell are pairwise different cells.
pub proof fn lemma_abstract_children_distinct(h: &HAProblem, a: AbstractState)
    ensures
        <HAProblem as hierarchical_a_star::HAProblem<State, AbstractState>>::spec_abstract_children(h, a).no_duplicates(),
{
    lemma_king_moves_distinct(h.spec_max_level(), a.coords.0, a.coords.1);
    let k = king_moves(h.spec_max_level(), a.coords.0, a.coords.1);
    let kids = <HAProblem as hierarchical_a_star::HAProblem<State, AbstractState>>::spec_abstract_children(h, a);
    assert forall|i: int, j: int| 0 <= i < kids.len() && 0 <= j < kids.len() && i != j implies kids[i] != kids[j] by {
        assert(kids[i] == AbstractState { level: a.level, coords: k[i] });
        assert(kids[j] == AbstractState { level: a.level, coords: k[j] });
    }
}

/// Law: abstracting a cell one level up halves both its coordinates and raises
/// its level by one, up to the last level; and the abstraction of an abstract
/// goal is the abstract goal of the next level.
pub proof fn lemma_further_abstract_halves(h: &HAProblem, a: AbstractState)
    ensures
        match <HAProblem as hierarchical_a_star::HAProblem<State, AbstractState>>::spec_further_abstract(h, a) {
            Some(b) => {
                &&& a.level < h.spec_max_level()
                &&& b.level == a.level + 1
                &&& b.coords.0 == a.coords.0 / 2
                &&& b.coords.1 == a.coords.1 / 2
            },
            None => a.level >= h.spec_max_level(),
        },
        h.goals_are_abstractions()
            && <HAProblem as hierarchical_a_star::HAProblem<State, AbstractState>>::spec_is_abstract_goal(h, a)
            && a.level < h.spec_max_level() ==> <HAProblem as hierarchical_a_star::HAProblem<
            State,
            AbstractState,
        >>::spec_is_abstract_goal(
            h,
            <HAProblem as hierarchical_a_star::HAProblem<State, AbstractState>>::spec_further_abstract(h, a)->0,
        ),
{
    if h.goals_are_abstractions()
        && <HAProblem as hierarchical_a_star::HAProblem<State, AbstractState>>::spec_is_abstract_goal(h, a)
        && a.level < h.spec_max_level() {
        let goal = h.spec_problem().spec_goal();
        let i = (a.level - 1) as nat;
        lemma_abstract_goal_level(goal, i);
        lemma_abstract_goal_level(goal, i + 1);
        assert(abstract_goal_at(goal, i + 1) == AbstractState {
            level: (abstract_goal_at(goal, i).level + 1) as u32,
            coords: (abstract_goal_at(goal, i).coords.0 / 2, abstract_goal_at(goal, i).coords.1 / 2),
        });
        assert(h.spec_abstract_goals()[(i + 1) as int] == abstract_goal_at(goal, i + 1));
    }
}

/// Law: an abstract cell is the abstract goal exactly when its level is one of
/// the hierarchy's and both its coordinates are the goal's divided by `2` to the
/// power of its level.
pub proof fn lemma_abstract_goal_is_halved_goal(h: &HAProblem, a: AbstractState)
    requires
        h.goals_are_abstractions(),
    ensures
        <HAProblem as hierarchical_a_star::HAProblem<State, AbstractState>>::spec_is_abstract_goal(h, a) <==> {
            let goal = h.spec_problem().spec_goal();
            &&& 1 <= a.level <= h.spec_max_level()
            &&& a.coords.0 == goal.0 as nat / two_to(a.level as nat)
            &&& a.coords.1 == goal.1 as nat / two_to(a.level as nat)
        },
{
    let goal = h.spec_problem().spec_goal();
    if 1 <= a.level <= h.spec_max_level() {
        let i = (a.level - 1) as nat;
        lemma_abstract_goal_at(goal, i);
        assert(h.spec_abstract_goals()[a.level - 1] == abstract_goal_at(goal, i));
    }
}

/// Law: the abstract goal of level `i + 1` has the goal's coordinates divided
/// by `2^(i + 1)`.
pub proof fn lemma_abstract_goal_at(goal: State, i: nat)
    requires
        i < u32::MAX,
    ensures
        abstract_goal_at(goal, i).level == i + 1,
        abstract_goal_at(goal, i).coords.0 == goal.0 as nat / two_to(i + 1),
        abstract_goal_at(goal, i).coords.1 == goal.1 as nat / two_to(i + 1),
    decreases i,
{
    lemma_abstract_goal_level(goal, i);
    assert(two_to(1) == 2) by {
        reveal_with_fuel(two_to, 2);
    }
    if i > 0 {
        lemma_abstract_goal_at(goal, (i - 1) as nat);
        lemma_two_to_monotone(0, i);
        assert(two_to(0) == 1);
        vstd::arithmetic::div_mod::lemma_div_denominator(goal.0 as int, two_to(i) as int, 2);
        vstd::arithmetic::div_mod::lemma_div_denominator(goal.1 as int, two_to(i) as int, 2);
        assert(two_to(i + 1) == two_to(i) * 2);
    }
}

} // verus!
