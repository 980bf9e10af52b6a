//! Missionaries and cannibals: everybody starts on the left bank with the boat
//! and must cross to the right bank; on no bank may the cannibals outnumber the
//! missionaries, where there are missionaries. Each crossing costs 1.
use vstd::prelude::*;
use std::rc::Rc;
use crate::algorithms::a_star;
use crate::algorithms::a_star::{rc_values, lemma_index_injective, lemma_index_bound};

verus! {

#[derive(Copy, Clone, PartialEq, Eq, Structural, Hash, Debug)]
pub struct State {
    pub missionaries_at_left: i32,
    pub cannibals_at_left: i32,
    pub boat_at_left: bool,
}

impl a_star::State for State {
    fn same_state(&self, other: &Self) -> (r: bool) {
        self.missionaries_at_left == other.missionaries_at_left && self.cannibals_at_left
            == other.cannibals_at_left && self.boat_at_left == other.boat_at_left
    }
}

#[derive(Debug)]
pub enum InvalidProblem {
    /// The number of total cannibals cannot be greater than the total number of
    /// missionaries, since that would make the first state invalid.
    MoreCannibalsThanMissionaries,
}

pub struct Problem {
    pub total_missionaries: i32,
    pub total_cannibals: i32,
    pub boat_capacity: i32,
    pub start_state: State,
}

/// The start state of a problem: everybody and the boat on the left bank.
pub open spec fn start_of(total_missionaries: i32, total_cannibals: i32) -> State {
    State { missionaries_at_left: total_missionaries, cannibals_at_left: total_cannibals, boat_at_left: true }
}

/// No bank has more cannibals than missionaries where it has missionaries.
pub open spec fn valid_state(p: Problem, s: State) -> bool {
    let missionaries_at_right = p.total_missionaries - s.missionaries_at_left;
    let cannibals_at_right = p.total_cannibals - s.cannibals_at_left;
    &&& !(s.missionaries_at_left > 0 && s.cannibals_at_left > s.missionaries_at_left)
    &&& !(missionaries_at_right > 0 && cannibals_at_right > missionaries_at_right)
}

/// The missionaries on the bank where the boat is.
pub open spec fn missionaries_current(p: Problem, s: State) -> int {
    if s.boat_at_left { s.missionaries_at_left as int } else { p.total_missionaries - s.missionaries_at_left }
}

/// The cannibals on the bank where the boat is.
pub open spec fn cannibals_current(p: Problem, s: State) -> int {
    if s.boat_at_left { s.cannibals_at_left as int } else { p.total_cannibals - s.cannibals_at_left }
}

/// Crossing with `action.0` missionaries and `action.1` cannibals: the state
/// reached, if its counts stay within the totals and it is valid.
pub open spec fn apply_action_of(p: Problem, parent: State, action: (i32, i32)) -> Option<State> {
    let direction: int = if parent.boat_at_left { -1 } else { 1 };
    let new_missionaries = parent.missionaries_at_left + action.0 * direction;
    let new_cannibals = parent.cannibals_at_left + action.1 * direction;
    if new_missionaries < 0 || new_missionaries > p.total_missionaries {
        None
    } else if new_cannibals < 0 || new_cannibals > p.total_cannibals {
        None
    } else {
        let child = State {
            missionaries_at_left: new_missionaries as i32,
            cannibals_at_left: new_cannibals as i32,
            boat_at_left: !parent.boat_at_left,
        };
        if valid_state(p, child) { Some(child) } else { None }
    }
}

/// The crossings `(1, 0)` to `(n, 0)`.
pub open spec fn missionary_crossings(n: int) -> Seq<(i32, i32)>
    decreases n,
{
    if n <= 0 { seq![] } else { missionary_crossings(n - 1).push((n as i32, 0i32)) }
}

/// The crossings `(0, 1)` to `(0, n)`.
pub open spec fn cannibal_crossings(n: int) -> Seq<(i32, i32)>
    decreases n,
{
    if n <= 0 { seq![] } else { cannibal_crossings(n - 1).push((0i32, n as i32)) }
}

/// The crossings `(j, i)` for `j` from `i` up to `end` (excluded).
pub open spec fn mixed_row(i: int, end: int) -> Seq<(i32, i32)>
    decreases end - i,
{
    if end <= i { seq![] } else { mixed_row(i, end - 1).push(((end - 1) as i32, i as i32)) }
}

/// Where the row of `i` cannibals stops (excluded): after
/// `available_missionaries`, and with at most `capacity` people in the boat.
pub open spec fn row_end(i: int, available_missionaries: int, capacity: int) -> int {
    if available_missionaries + 1 < capacity - i + 1 { available_missionaries + 1 } else { capacity - i + 1 }
}

/// The rows of mixed crossings for `i` from 1 up to `n` (excluded).
pub open spec fn mixed_crossings(n: int, available_missionaries: int, capacity: int) -> Seq<(i32, i32)>
    decreases n,
{
    if n <= 1 {
        seq![]
    } else {
        mixed_crossings(n - 1, available_missionaries, capacity) + mixed_row(
            n - 1,
            row_end(n - 1, available_missionaries, capacity),
        )
    }
}

pub open spec fn min_int(a: int, b: int) -> int {
    if a < b { a } else { b }
}

/// All crossings tried from `s`, in order: missionaries alone, cannibals alone,
/// then both together, never more cannibals than missionaries in the boat.
pub open spec fn crossings(p: Problem, s: State) -> Seq<(i32, i32)> {
    let available_missionaries = min_int(missionaries_current(p, s), p.boat_capacity as int);
    let available_cannibals = min_int(cannibals_current(p, s), p.boat_capacity as int);
    missionary_crossings(available_missionaries) + cannibal_crossings(available_cannibals) + mixed_crossings(
        available_cannibals + 1,
        available_missionaries,
        p.boat_capacity as int,
    )
}

/// The states that the crossings `actions` reach from `s`, in order.
pub open spec fn outcomes(p: Problem, s: State, actions: Seq<(i32, i32)>) -> Seq<State>
    decreases actions.len(),
{
    if actions.len() == 0 {
        seq![]
    } else {
        let rest = outcomes(p, s, actions.drop_last());
        match apply_action_of(p, s, actions.last()) {
            Some(c) => rest.push(c),
            None => rest,
        }
    }
}

/// The children of `s`.
pub open spec fn children_of(p: Problem, s: State) -> Seq<State> {
    outcomes(p, s, crossings(p, s))
}

/// `s`'s counts lie within the totals.
pub open spec fn in_box(p: Problem, s: State) -> bool {
    0 <= s.missionaries_at_left <= p.total_missionaries && 0 <= s.cannibals_at_left <= p.total_cannibals
}

proof fn lemma_outcomes_push(p: Problem, s: State, actions: Seq<(i32, i32)>, a: (i32, i32))
    ensures
        outcomes(p, s, actions.push(a)) == outcomes(p, s, actions) + match apply_action_of(p, s, a) {
            Some(c) => seq![c],
            None => Seq::<State>::empty(),
        },
{
    assert(actions.push(a).drop_last() =~= actions);
    match apply_action_of(p, s, a) {
        Some(c) => {
            assert(outcomes(p, s, actions).push(c) =~= outcomes(p, s, actions) + seq![c]);
        },
        None => {
            assert(outcomes(p, s, actions) =~= outcomes(p, s, actions) + Seq::<State>::empty());
        },
    }
}

/// Every state that crossings reach lies within the totals.
proof fn lemma_outcomes_in_box(p: Problem, s: State, actions: Seq<(i32, i32)>)
    ensures
        forall|i: int| 0 <= i < outcomes(p, s, actions).len() ==> in_box(p, #[trigger] outcomes(p, s, actions)[i]),
    decreases actions.len(),
{
    if actions.len() > 0 {
        lemma_outcomes_in_box(p, s, actions.drop_last());
        let rest = outcomes(p, s, actions.drop_last());
        match apply_action_of(p, s, actions.last()) {
            Some(c) => {
                assert forall|i: int| 0 <= i < rest.push(c).len() implies in_box(p, #[trigger] rest.push(c)[i]) by {
                    if i < rest.len() {
                        assert(rest.push(c)[i] == rest[i]);
                    }
                }
            },
            None => {},
        }
    }
}

/// Every state that crossings reach is valid and has the boat on the other bank.
proof fn lemma_outcomes_valid(p: Problem, s: State, actions: Seq<(i32, i32)>)
    ensures
        forall|i: int|
            0 <= i < outcomes(p, s, actions).len() ==> valid_state(p, #[trigger] outcomes(p, s, actions)[i])
                && outcomes(p, s, actions)[i].boat_at_left != s.boat_at_left,
    decreases actions.len(),
{
    if actions.len() > 0 {
        lemma_outcomes_valid(p, s, actions.drop_last());
        let rest = outcomes(p, s, actions.drop_last());
        match apply_action_of(p, s, actions.last()) {
            Some(c) => {
                assert forall|i: int| 0 <= i < rest.push(c).len() implies valid_state(p, #[trigger] rest.push(c)[i])
                    && rest.push(c)[i].boat_at_left != s.boat_at_left by {
                    if i < rest.len() {
                        assert(rest.push(c)[i] == rest[i]);
                    }
                }
            },
            None => {},
        }
    }
}

/// The smaller of two numbers.
fn smaller(a: i32, b: i32) -> (r: i32)
    ensures
        r == min_int(a as int, b as int),
{
    if a < b {
        a
    } else {
        b
    }
}

pub open spec fn abs_int(a: int) -> int {
    if a < 0 { -a } else { a }
}

impl Problem {
    /// The problem with everybody on the left bank; refused when there are more
    /// cannibals than missionaries.
    pub fn create(total_missionaries: i32, total_cannibals: i32, boat_capacity: i32) -> (r: Result<Problem, InvalidProblem>)
        ensures
            match r {
                Err(InvalidProblem::MoreCannibalsThanMissionaries) => total_cannibals > total_missionaries,
                Ok(p) => {
                    &&& total_cannibals <= total_missionaries
                    &&& p.total_missionaries == total_missionaries
                    &&& p.total_cannibals == total_cannibals
                    &&& p.boat_capacity == boat_capacity
                    &&& p.start_state == start_of(total_missionaries, total_cannibals)
                },
            },
    {
        if total_cannibals > total_missionaries {
            return Err(InvalidProblem::MoreCannibalsThanMissionaries);
        }
        let start_state = State {
            missionaries_at_left: total_missionaries,
            cannibals_at_left: total_cannibals,
            boat_at_left: true,
        };
        Ok(Problem { start_state, total_missionaries, total_cannibals, boat_capacity })
    }

    /// The children of `state`: the valid states reached by each crossing of
    /// `crossings`, in that order.
    fn children(&self, state: &State) -> (r: Vec<Rc<State>>)
        requires
            a_star::Problem::well_posed(self),
            a_star::Problem::in_state_space(self, *state),
        ensures
            rc_values(r@) == children_of(*self, *state),
    {
        let mut result: Vec<Rc<State>> = Vec::new();
        let missionaries = self.missionaries_at_current_side(state);
        let cannibals = self.cannibals_at_current_side(state);
        let available_missionaries = smaller(missionaries, self.boat_capacity);
        let available_cannibals = smaller(cannibals, self.boat_capacity);
        let ghost am = available_missionaries as int;
        let ghost ac = available_cannibals as int;
        let ghost mut done: Seq<(i32, i32)> = Seq::empty();
        // actions when only missionaries or only cannibals cross
        let mut i: i64 = 1;
        while i <= available_missionaries as i64
            invariant
                a_star::Problem::well_posed(self),
                a_star::Problem::in_state_space(self, *state),
                am == min_int(missionaries_current(*self, *state), self.boat_capacity as int),
                available_missionaries == am,
                1 <= i <= if am >= 1 { am + 1 } else { 1 },
                done == missionary_crossings(i - 1),
                rc_values(result@) == outcomes(*self, *state, done),
            decreases am + 1 - i,
        {
            self.push_outcome(&mut result, state, (i as i32, 0));
            proof {
                lemma_outcomes_push(*self, *state, done, (i as i32, 0i32));
                done = done.push((i as i32, 0i32));
            }
            i = i + 1;
        }
        let ghost first = done;
        let mut i: i64 = 1;
        while i <= available_cannibals as i64
            invariant
                a_star::Problem::well_posed(self),
                a_star::Problem::in_state_space(self, *state),
                ac == min_int(cannibals_current(*self, *state), self.boat_capacity as int),
                available_cannibals == ac,
                1 <= i <= if ac >= 1 { ac + 1 } else { 1 },
                done == first + cannibal_crossings(i - 1),
                rc_values(result@) == outcomes(*self, *state, done),
            decreases ac + 1 - i,
        {
            self.push_outcome(&mut result, state, (0, i as i32));
            proof {
                lemma_outcomes_push(*self, *state, done, (0i32, i as i32));
                assert(first + cannibal_crossings(i as int) =~= (first + cannibal_crossings(i - 1)).push((0i32, i as i32)));
                done = done.push((0i32, i as i32));
            }
            i = i + 1;
        }
        let ghost second = done;
        // the other combinations, with missionaries and cannibals in the boat;
        // never more cannibals than missionaries
        let mut i: i64 = 1;
        while i <= available_cannibals as i64
            invariant
                a_star::Problem::well_posed(self),
                a_star::Problem::in_state_space(self, *state),
                am == min_int(missionaries_current(*self, *state), self.boat_capacity as int),
                ac == min_int(cannibals_current(*self, *state), self.boat_capacity as int),
                available_missionaries == am,
                available_cannibals == ac,
                1 <= i <= if ac >= 1 { ac + 1 } else { 1 },
                done == second + mixed_crossings(i as int, am, self.boat_capacity as int),
                rc_values(result@) == outcomes(*self, *state, done),
            decreases ac + 1 - i,
        {
            let end = if (available_missionaries as i64) + 1 < self.boat_capacity as i64 - i + 1 {
                available_missionaries as i64 + 1
            } else {
                self.boat_capacity as i64 - i + 1
            };
            let ghost row_start = done;
            let mut j: i64 = i;
            while j < end
                invariant
                    a_star::Problem::well_posed(self),
                    a_star::Problem::in_state_space(self, *state),
                    am == min_int(missionaries_current(*self, *state), self.boat_capacity as int),
                    ac == min_int(cannibals_current(*self, *state), self.boat_capacity as int),
                    1 <= i <= ac,
                    end == row_end(i as int, am, self.boat_capacity as int),
                    i <= j,
                    j <= if end >= i { end } else { i },
                    done == row_start + mixed_row(i as int, j as int),
                    rc_values(result@) == outcomes(*self, *state, done),
                decreases end - j,
            {
                self.push_outcome(&mut result, state, (j as i32, i as i32));
                proof {
                    lemma_outcomes_push(*self, *state, done, (j as i32, i as i32));
                    assert(row_start + mixed_row(i as int, j + 1) =~= (row_start + mixed_row(i as int, j as int)).push(
                        (j as i32, i as i32),
                    ));
                    done = done.push((j as i32, i as i32));
                }
                j = j + 1;
            }
            proof {
                assert(mixed_row(i as int, j as int) == mixed_row(i as int, row_end(i as int, am, self.boat_capacity as int))) by {
                    if end < i {
                        assert(mixed_row(i as int, end as int) =~= Seq::<(i32, i32)>::empty());
                    }
                }
                assert(second + mixed_crossings(i + 1, am, self.boat_capacity as int) =~= second + mixed_crossings(
                    i as int,
                    am,
                    self.boat_capacity as int,
                ) + mixed_row(i as int, row_end(i as int, am, self.boat_capacity as int)));
            }
            i = i + 1;
        }
        proof {
            if ac >= 1 {
                assert(i == ac + 1);
            } else {
                assert(mixed_crossings(i as int, am, self.boat_capacity as int) =~= mixed_crossings(
                    ac + 1,
                    am,
                    self.boat_capacity as int,
                ));
            }
            assert(done =~= crossings(*self, *state));
        }
        result
    }

    /// Adds the state that `action` reaches from `state`, if any.
    fn push_outcome(&self, result: &mut Vec<Rc<State>>, state: &State, action: (i32, i32))
        requires
            a_star::Problem::well_posed(self),
            a_star::Problem::in_state_space(self, *state),
            1 <= action.0 + action.1,
            0 <= action.0,
            action.0 == 0 || action.0 <= min_int(missionaries_current(*self, *state), self.boat_capacity as int),
            0 <= action.1,
            action.1 == 0 || action.1 <= min_int(cannibals_current(*self, *state), self.boat_capacity as int),
        ensures
            rc_values(final(result)@) == rc_values(old(result)@) + match apply_action_of(*self, *state, action) {
                Some(c) => seq![c],
                None => Seq::<State>::empty(),
            },
    {
        let ghost before = result@;
        match self.apply_action(state, action) {
            Some(new_state) => {
                result.push(Rc::new(new_state));
                proof {
                    assert(rc_values(result@) =~= rc_values(before) + seq![new_state]);
                }
            },
            None => {
                proof {
                    assert(rc_values(result@) =~= rc_values(before) + Seq::<State>::empty());
                }
            },
        }
    }

    pub fn missionaries_at_right(&self, state: &State) -> (r: i32)
        requires
            i32::MIN <= self.total_missionaries - state.missionaries_at_left <= i32::MAX,
        ensures
            r == self.total_missionaries - state.missionaries_at_left,
    {
        return self.total_missionaries - state.missionaries_at_left;
    }

    pub fn cannibals_at_right(&self, state: &State) -> (r: i32)
        requires
            i32::MIN <= self.total_cannibals - state.cannibals_at_left <= i32::MAX,
        ensures
            r == self.total_cannibals - state.cannibals_at_left,
    {
        return self.total_cannibals - state.cannibals_at_left;
    }

    /// The missionaries on the bank where the boat is.
    pub fn missionaries_at_current_side(&self, state: &State) -> (r: i32)
        requires
            state.boat_at_left || i32::MIN <= self.total_missionaries - state.missionaries_at_left <= i32::MAX,
        ensures
            r == missionaries_current(*self, *state),
    {
        if state.boat_at_left {
            state.missionaries_at_left
        } else {
            self.total_missionaries - state.missionaries_at_left
        }
    }

    /// The cannibals on the bank where the boat is.
    pub fn cannibals_at_current_side(&self, state: &State) -> (r: i32)
        requires
            state.boat_at_left || i32::MIN <= self.total_cannibals - state.cannibals_at_left <= i32::MAX,
        ensures
            r == cannibals_current(*self, *state),
    {
        if state.boat_at_left {
            state.cannibals_at_left
        } else {
            self.total_cannibals - state.cannibals_at_left
        }
    }

    /// The state reached by crossing with `action.0` missionaries and `action.1`
    /// cannibals, if its counts stay within the totals and it is valid.
    fn apply_action(&self, parent: &State, action: (i32, i32)) -> (r: Option<State>)
        requires
            a_star::Problem::well_posed(self),
            a_star::Problem::in_state_space(self, *parent),
            0 <= action.0,
            action.0 == 0 || action.0 <= min_int(missionaries_current(*self, *parent), self.boat_capacity as int),
            0 <= action.1,
            action.1 == 0 || action.1 <= min_int(cannibals_current(*self, *parent), self.boat_capacity as int),
        ensures
            r == apply_action_of(*self, *parent, action),
    {
        let direction: i32 = if parent.boat_at_left { -1 } else { 1 };
        let new_missionaries = parent.missionaries_at_left + action.0 * direction;
        if new_missionaries < 0 || new_missionaries > self.total_missionaries {
            return None;
        }
        let new_cannibals = parent.cannibals_at_left + action.1 * direction;
        if new_cannibals < 0 || new_cannibals > self.total_cannibals {
            return None;
        }
        let child = State {
            missionaries_at_left: new_missionaries,
            cannibals_at_left: new_cannibals,
            boat_at_left: !parent.boat_at_left,
        };
        if self.is_state_valid(&child) {
            return Some(child);
        }
        None
    }

    /// Whether no bank has more cannibals than missionaries where it has missionaries.
    pub fn is_state_valid(&self, state: &State) -> (r: bool)
        requires
            i32::MIN <= self.total_missionaries - state.missionaries_at_left <= i32::MAX,
            i32::MIN <= self.total_cannibals - state.cannibals_at_left <= i32::MAX,
        ensures
            r == valid_state(*self, *state),
    {
        let missionaries_at_right = self.missionaries_at_right(state);
        let cannibals_at_right = self.cannibals_at_right(state);
        // the left side has more cannibals
        if state.missionaries_at_left > 0 && state.cannibals_at_left > state.missionaries_at_left {
            return false;
        }
        // the right side has more cannibals
        if missionaries_at_right > 0 && cannibals_at_right > missionaries_at_right {
            return false;
        }
        return true;
    }
}

/// The position of a state within the totals, counting from 1.
pub open spec fn box_index(p: Problem, s: State) -> nat {
    ((s.missionaries_at_left as nat * (p.total_cannibals as nat + 1) + s.cannibals_at_left as nat) * 2 + (if s.boat_at_left {
        1nat
    } else {
        0nat
    })) + 1
}

impl a_star::Problem<State> for Problem {
    /// The arithmetic of the search cannot fail: a capacity that is not 0 (the
    /// heuristic divides by it), a total of people within `i32`, and a start state
    /// within the totals or that of `create`.
    open spec fn well_posed(&self) -> bool {
        &&& self.boat_capacity != 0
        &&& i32::MIN <= self.total_missionaries + self.total_cannibals <= i32::MAX
        &&& !(self.boat_capacity == -1 && self.total_missionaries + self.total_cannibals == i32::MIN)
        &&& (in_box(*self, self.start_state) || self.start_state == start_of(
            self.total_missionaries,
            self.total_cannibals,
        ))
    }

    open spec fn spec_children(&self, state: State) -> Seq<State> {
        children_of(*self, state)
    }

    open spec fn spec_is_goal(&self, state: State) -> bool {
        state.missionaries_at_left == 0 && state.cannibals_at_left == 0 && state.boat_at_left == false
    }

    open spec fn spec_cost(&self, state: State) -> u32 {
        1
    }

    /// The people on the left bank divided by the capacity, as a magnitude
    /// rounded down.
    open spec fn spec_heuristic(&self, state: State) -> u32 {
        (abs_int(state.missionaries_at_left + state.cannibals_at_left) / abs_int(self.boat_capacity as int)) as u32
    }

    open spec fn spec_start_state(&self) -> State {
        self.start_state
    }

    open spec fn in_domain(&self, state: State) -> bool {
        self.in_state_space(state)
    }

    open spec fn in_state_space(&self, state: State) -> bool {
        in_box(*self, state) || state == self.start_state
    }

    open spec fn state_index(&self, state: State) -> nat {
        if in_box(*self, state) { box_index(*self, state) } else { 0 }
    }

    open spec fn state_space_size(&self) -> nat {
        if self.total_missionaries >= 0 && self.total_cannibals >= 0 {
            (self.total_missionaries as nat + 1) * (self.total_cannibals as nat + 1) * 2 + 1
        } else {
            1
        }
    }

    proof fn lemma_state_space(&self) {
        let w = self.total_cannibals as nat + 1;
        assert forall|s: State| #[trigger] self.in_state_space(s) implies self.state_index(s) < self.state_space_size() by {
            if in_box(*self, s) {
                lemma_index_bound(
                    s.missionaries_at_left as nat,
                    s.cannibals_at_left as nat,
                    self.total_missionaries as nat + 1,
                    w,
                );
                let b: nat = if s.boat_at_left { 1 } else { 0 };
                lemma_index_bound(
                    s.missionaries_at_left as nat * w + s.cannibals_at_left as nat,
                    b,
                    (self.total_missionaries as nat + 1) * w,
                    2,
                );
            }
        }
        assert forall|s: State, t: State|
            self.in_state_space(s) && self.in_state_space(t) && #[trigger] self.state_index(s)
                == #[trigger] self.state_index(t) implies s == t by {
            if in_box(*self, s) && in_box(*self, t) {
                let bs: nat = if s.boat_at_left { 1 } else { 0 };
                let bt: nat = if t.boat_at_left { 1 } else { 0 };
                lemma_index_injective(
                    s.missionaries_at_left as nat * w + s.cannibals_at_left as nat,
                    bs,
                    t.missionaries_at_left as nat * w + t.cannibals_at_left as nat,
                    bt,
                    2,
                );
                lemma_index_injective(
                    s.missionaries_at_left as nat,
                    s.cannibals_at_left as nat,
                    t.missionaries_at_left as nat,
                    t.cannibals_at_left as nat,
                    w,
                );
            }
        }
        assert forall|s: State, i: int|
            self.in_state_space(s) && 0 <= i < self.spec_children(s).len() implies self.in_state_space(
            #[trigger] self.spec_children(s)[i],
        ) by {
            lemma_outcomes_in_box(*self, s, crossings(*self, s));
        }
    }

    fn children(&self, state: &State) -> (r: Vec<Rc<State>>) {
        self.children(state)
    }

    fn is_goal(&self, state: &State) -> (r: bool) {
        return state.missionaries_at_left == 0 && state.cannibals_at_left == 0 && state.boat_at_left == false;
    }

    fn cost(&self, _state: &State) -> (r: u32) {
        1
    }

    /// `i32::unsigned_abs` of the quotient (truncated toward zero) of the people on
    /// the left bank by the capacity, computed on magnitudes.
    fn heuristic(&self, state: &State) -> (r: u32) {
        let people = state.missionaries_at_left as i64 + state.cannibals_at_left as i64;
        let people_magnitude: u64 = if people < 0 { (0 - people) as u64 } else { people as u64 };
        let capacity_magnitude: u64 = if self.boat_capacity < 0 {
            (0 - self.boat_capacity as i64) as u64
        } else {
            self.boat_capacity as u64
        };
        (people_magnitude / capacity_magnitude) as u32
    }

    fn start_state(&self) -> (r: State) {
        return self.start_state;
    }
}

/// Law: every child is a valid state within the totals, with the boat on the
/// other bank.
pub proof fn lemma_children_valid(p: Problem, s: State)
    ensures
        forall|i: int|
            0 <= i < children_of(p, s).len() ==> {
                let c = #[trigger] children_of(p, s)[i];
                &&& valid_state(p, c)
                &&& in_box(p, c)
                &&& c.boat_at_left != s.boat_at_left
            },
{
    lemma_outcomes_valid(p, s, crossings(p, s));
    lemma_outcomes_in_box(p, s, crossings(p, s));
}

/// Law: the start state of `create` is valid exactly when there are no more
/// cannibals than missionaries, or no missionaries; `create` refuses the first
/// case whenever there are missionaries, and the second only when
/// cannibals outnumber them.
pub proof fn lemma_start_valid(total_missionaries: i32, total_cannibals: i32, boat_capacity: i32)
    ensures
        ({
            let p = Problem {
                total_missionaries,
                total_cannibals,
                boat_capacity,
                start_state: start_of(total_missionaries, total_cannibals),
            };
            valid_state(p, p.start_state) <==> !(total_missionaries > 0 && total_cannibals > total_missionaries)
        }),
{
}

/// A crossing carries 1 to `capacity` people, and never more cannibals than
/// missionaries when both are in the boat.
pub open spec fn crossing_ok(capacity: int, a: (i32, i32)) -> bool {
    &&& a.0 >= 0
    &&& a.1 >= 0
    &&& 1 <= a.0 + a.1 <= capacity
    &&& (a.0 > 0 && a.1 > 0 ==> a.1 <= a.0)
}

proof fn lemma_concat_ok(capacity: int, a: Seq<(i32, i32)>, b: Seq<(i32, i32)>)
    requires
        forall|i: int| 0 <= i < a.len() ==> crossing_ok(capacity, #[trigger] a[i]),
        forall|i: int| 0 <= i < b.len() ==> crossing_ok(capacity, #[trigger] b[i]),
    ensures
        forall|i: int| 0 <= i < (a + b).len() ==> crossing_ok(capacity, #[trigger] (a + b)[i]),
{
    assert forall|i: int| 0 <= i < (a + b).len() implies crossing_ok(capacity, #[trigger] (a + b)[i]) by {
        if i < a.len() {
            assert((a + b)[i] == a[i]);
        } else {
            assert((a + b)[i] == b[i - a.len()]);
        }
    }
}

proof fn lemma_single_crossings_ok(n: int, capacity: int)
    requires
        n <= capacity,
        capacity <= i32::MAX,
    ensures
        forall|i: int| 0 <= i < missionary_crossings(n).len() ==> crossing_ok(capacity, #[trigger] missionary_crossings(n)[i]),
        forall|i: int| 0 <= i < cannibal_crossings(n).len() ==> crossing_ok(capacity, #[trigger] cannibal_crossings(n)[i]),
        missionary_crossings(n).len() == if n > 0 { n } else { 0 },
        cannibal_crossings(n).len() == if n > 0 { n } else { 0 },
        forall|i: int| 0 <= i < missionary_crossings(n).len() ==> #[trigger] missionary_crossings(n)[i] == ((i + 1) as i32, 0i32),
        forall|i: int| 0 <= i < cannibal_crossings(n).len() ==> #[trigger] cannibal_crossings(n)[i] == (0i32, (i + 1) as i32),
    decreases n,
{
    if n > 0 {
        lemma_single_crossings_ok(n - 1, capacity);
    }
}

proof fn lemma_mixed_row_ok(i: int, end: int, capacity: int)
    requires
        1 <= i,
        end <= capacity - i + 1,
        capacity <= i32::MAX,
    ensures
        forall|k: int| 0 <= k < mixed_row(i, end).len() ==> crossing_ok(capacity, #[trigger] mixed_row(i, end)[k]),
    decreases end - i,
{
    if end > i {
        lemma_mixed_row_ok(i, end - 1, capacity);
        let r = mixed_row(i, end - 1);
        assert forall|k: int| 0 <= k < r.push(((end - 1) as i32, i as i32)).len() implies crossing_ok(
            capacity,
            #[trigger] r.push(((end - 1) as i32, i as i32))[k],
        ) by {
            if k < r.len() {
                assert(r.push(((end - 1) as i32, i as i32))[k] == r[k]);
            }
        }
    }
}

proof fn lemma_mixed_crossings_ok(n: int, available_missionaries: int, capacity: int)
    requires
        capacity <= i32::MAX,
    ensures
        forall|k: int|
            0 <= k < mixed_crossings(n, available_missionaries, capacity).len() ==> crossing_ok(
                capacity,
                #[trigger] mixed_crossings(n, available_missionaries, capacity)[k],
            ),
    decreases n,
{
    if n > 1 {
        lemma_mixed_crossings_ok(n - 1, available_missionaries, capacity);
        lemma_mixed_row_ok(n - 1, row_end(n - 1, available_missionaries, capacity), capacity);
        lemma_concat_ok(
            capacity,
            mixed_crossings(n - 1, available_missionaries, capacity),
            mixed_row(n - 1, row_end(n - 1, available_missionaries, capacity)),
        );
    }
}

/// Law: crossing back with the same load from the state reached returns to
/// the state left, when that state is valid and within the totals.
pub proof fn lemma_crossing_back(p: Problem, s: State, action: (i32, i32))
    requires
        0 <= s.missionaries_at_left <= p.total_missionaries,
        0 <= s.cannibals_at_left <= p.total_cannibals,
        valid_state(p, s),
        apply_action_of(p, s, action) is Some,
    ensures
        apply_action_of(p, apply_action_of(p, s, action)->0, action) == Some(s),
{
    let c = apply_action_of(p, s, action)->0;
    let a0 = action.0 as int;
    let a1 = action.1 as int;
    assert(a0 * -1 == -a0 && a1 * -1 == -a1 && a0 * 1 == a0 && a1 * 1 == a1) by (nonlinear_arith);
    if s.boat_at_left {
        assert(c.missionaries_at_left == s.missionaries_at_left - action.0);
        assert(c.cannibals_at_left == s.cannibals_at_left - action.1);
    } else {
        assert(c.missionaries_at_left == s.missionaries_at_left + action.0);
        assert(c.cannibals_at_left == s.cannibals_at_left + action.1);
    }
}

proof fn lemma_contains_in_concat<A>(a: Seq<A>, b: Seq<A>, x: A)
    ensures
        a.contains(x) ==> (a + b).contains(x),
        b.contains(x) ==> (a + b).contains(x),
{
    if a.contains(x) {
        let k = choose|k: int| 0 <= k < a.len() && a[k] == x;
        assert((a + b)[k] == x);
    }
    if b.contains(x) {
        let k = choose|k: int| 0 <= k < b.len() && b[k] == x;
        assert((a + b)[a.len() + k] == x);
    }
}

/// A crossing among those tried reaches its outcome, when there is one.
proof fn lemma_outcomes_contain(p: Problem, s: State, actions: Seq<(i32, i32)>, a: (i32, i32), c: State)
    requires
        actions.contains(a),
        apply_action_of(p, s, a) == Some(c),
    ensures
        outcomes(p, s, actions).contains(c),
    decreases actions.len(),
{
    let rest = actions.drop_last();
    lemma_outcomes_push(p, s, rest, actions.last());
    assert(rest.push(actions.last()) =~= actions);
    if actions.last() == a {
        lemma_contains_in_concat(outcomes(p, s, rest), seq![c], c);
        assert(seq![c][0] == c);
    } else {
        let k = choose|k: int| 0 <= k < actions.len() && actions[k] == a;
        assert(rest[k] == a);
        lemma_outcomes_contain(p, s, rest, a, c);
        let tail = match apply_action_of(p, s, actions.last()) {
            Some(d) => seq![d],
            None => Seq::<State>::empty(),
        };
        lemma_contains_in_concat(outcomes(p, s, rest), tail, c);
    }
}

proof fn lemma_mixed_row_contains(i: int, end: int, j: int)
    requires
        i <= j < end,
        0 <= i <= i32::MAX,
        j <= i32::MAX,
    ensures
        mixed_row(i, end).contains((j as i32, i as i32)),
    decreases end - i,
{
    if j == end - 1 {
        assert(mixed_row(i, end)[mixed_row(i, end).len() - 1] == (j as i32, i as i32));
    } else {
        lemma_mixed_row_contains(i, end - 1, j);
        let k = choose|k: int| 0 <= k < mixed_row(i, end - 1).len() && #[trigger] mixed_row(i, end - 1)[k] == (j as i32, i as i32);
        assert(mixed_row(i, end)[k] == (j as i32, i as i32));
    }
}

proof fn lemma_mixed_crossings_contain(n: int, am: int, capacity: int, i: int, j: int)
    requires
        1 <= i < n,
        i <= j < row_end(i, am, capacity),
        i <= i32::MAX,
        j <= i32::MAX,
    ensures
        mixed_crossings(n, am, capacity).contains((j as i32, i as i32)),
    decreases n,
{
    if i == n - 1 {
        lemma_mixed_row_contains(i, row_end(i, am, capacity), j);
        lemma_contains_in_concat(
            mixed_crossings(n - 1, am, capacity),
            mixed_row(n - 1, row_end(n - 1, am, capacity)),
            (j as i32, i as i32),
        );
    } else {
        lemma_mixed_crossings_contain(n - 1, am, capacity, i, j);
        lemma_contains_in_concat(
            mixed_crossings(n - 1, am, capacity),
            mixed_row(n - 1, row_end(n - 1, am, capacity)),
            (j as i32, i as i32),
        );
    }
}

/// Law (every crossing is tried): a state `c` with the boat on the other bank,
/// valid and within the totals, that a boat load of `dm` missionaries and `dc`
/// cannibals from `s` reaches is a child of `s`, whenever the load carries 1 to
/// `boat_capacity` people and, with both kinds aboard, no more cannibals than
/// missionaries.
pub proof fn lemma_children_complete(p: Problem, s: State, c: State)
    requires
        p.boat_capacity <= i32::MAX,
        c.boat_at_left != s.boat_at_left,
        in_box(p, c),
        valid_state(p, c),
        ({
            let dm = if s.boat_at_left {
                s.missionaries_at_left - c.missionaries_at_left
            } else {
                c.missionaries_at_left - s.missionaries_at_left
            };
            let dc = if s.boat_at_left {
                s.cannibals_at_left - c.cannibals_at_left
            } else {
                c.cannibals_at_left - s.cannibals_at_left
            };
            &&& 0 <= dm
            &&& 0 <= dc
            &&& 1 <= dm + dc <= p.boat_capacity
            &&& (dm == 0 || dc == 0 || dc <= dm)
        }),
    ensures
        <Problem as a_star::Problem<State>>::spec_children(&p, s).contains(c),
{
    let dm: int = if s.boat_at_left {
        s.missionaries_at_left - c.missionaries_at_left
    } else {
        c.missionaries_at_left - s.missionaries_at_left
    };
    let dc: int = if s.boat_at_left {
        s.cannibals_at_left - c.cannibals_at_left
    } else {
        c.cannibals_at_left - s.cannibals_at_left
    };
    let cap = p.boat_capacity as int;
    let am = min_int(missionaries_current(p, s), cap);
    let ac = min_int(cannibals_current(p, s), cap);
    assert(dm <= am && dc <= ac);
    let a = (dm as i32, dc as i32);
    assert(dm * -1 == -dm && dc * -1 == -dc && dm * 1 == dm && dc * 1 == dc) by (nonlinear_arith);
    assert(apply_action_of(p, s, a) == Some(c));
    let singles = missionary_crossings(am) + cannibal_crossings(ac);
    let mixed = mixed_crossings(ac + 1, am, cap);
    lemma_single_crossings_ok(am, cap);
    lemma_single_crossings_ok(ac, cap);
    if dc == 0 {
        assert(missionary_crossings(am)[dm - 1] == a);
        lemma_contains_in_concat(missionary_crossings(am), cannibal_crossings(ac), a);
        lemma_contains_in_concat(singles, mixed, a);
    } else if dm == 0 {
        assert(cannibal_crossings(ac)[dc - 1] == a);
        lemma_contains_in_concat(missionary_crossings(am), cannibal_crossings(ac), a);
        lemma_contains_in_concat(singles, mixed, a);
    } else {
        lemma_mixed_crossings_contain(ac + 1, am, cap, dc, dm);
        lemma_contains_in_concat(singles, mixed, a);
    }
    assert(crossings(p, s) == singles + mixed);
    lemma_outcomes_contain(p, s, crossings(p, s), a, c);
}

/// An outcome of the crossings `actions` comes from one of them.
proof fn lemma_outcome_source(p: Problem, s: State, actions: Seq<(i32, i32)>, c: State)
    requires
        outcomes(p, s, actions).contains(c),
    ensures
        exists|a: (i32, i32)| actions.contains(a) && apply_action_of(p, s, a) == Some(c),
    decreases actions.len(),
{
    let rest = actions.drop_last();
    let last = actions.last();
    lemma_outcomes_push(p, s, rest, last);
    assert(rest.push(last) =~= actions);
    let tail = match apply_action_of(p, s, last) {
        Some(d) => seq![d],
        None => Seq::<State>::empty(),
    };
    let k = choose|k: int| 0 <= k < outcomes(p, s, actions).len() && outcomes(p, s, actions)[k] == c;
    if k < outcomes(p, s, rest).len() {
        assert(outcomes(p, s, rest)[k] == c);
        lemma_outcome_source(p, s, rest, c);
        let a = choose|a: (i32, i32)| rest.contains(a) && apply_action_of(p, s, a) == Some(c);
        let j = choose|j: int| 0 <= j < rest.len() && rest[j] == a;
        assert(actions[j] == a);
        assert(actions.contains(a) && apply_action_of(p, s, a) == Some(c));
    } else {
        assert(tail[k - outcomes(p, s, rest).len()] == c);
        assert(actions[actions.len() - 1] == last);
        assert(apply_action_of(p, s, last) == Some(c));
        assert(actions.contains(last) && apply_action_of(p, s, last) == Some(c));
    }
}

/// Law (only legal crossings): every child of `s` is reached by a boat load
/// of `dm` missionaries and `dc` cannibals carrying 1 to `boat_capacity`
/// people, with no more cannibals than missionaries when both kinds are aboard.
pub proof fn lemma_children_legal(p: Problem, s: State, c: State)
    requires
        <Problem as a_star::Problem<State>>::spec_children(&p, s).contains(c),
    ensures
        c.boat_at_left != s.boat_at_left,
        ({
            let dm = if s.boat_at_left {
                s.missionaries_at_left - c.missionaries_at_left
            } else {
                c.missionaries_at_left - s.missionaries_at_left
            };
            let dc = if s.boat_at_left {
                s.cannibals_at_left - c.cannibals_at_left
            } else {
                c.cannibals_at_left - s.cannibals_at_left
            };
            &&& 0 <= dm
            &&& 0 <= dc
            &&& 1 <= dm + dc <= p.boat_capacity
            &&& (dm > 0 && dc > 0 ==> dc <= dm)
        }),
{
    lemma_outcome_source(p, s, crossings(p, s), c);
    let a = choose|a: (i32, i32)| crossings(p, s).contains(a) && apply_action_of(p, s, a) == Some(c);
    lemma_crossings_ok(p, s);
    let j = choose|j: int| 0 <= j < crossings(p, s).len() && crossings(p, s)[j] == a;
    assert(crossing_ok(p.boat_capacity as int, crossings(p, s)[j]));
    let a0 = a.0 as int;
    let a1 = a.1 as int;
    assert(a0 * -1 == -a0 && a1 * -1 == -a1 && a0 * 1 == a0 && a1 * 1 == a1) by (nonlinear_arith);
}

/// Two crossings from `s` that reach the same state carry the same load.
proof fn lemma_apply_injective(p: Problem, s: State, a: (i32, i32), b: (i32, i32))
    requires
        apply_action_of(p, s, a) is Some,
        apply_action_of(p, s, a) == apply_action_of(p, s, b),
    ensures
        a == b,
{
    let a0 = a.0 as int;
    let a1 = a.1 as int;
    let b0 = b.0 as int;
    let b1 = b.1 as int;
    assert(a0 * -1 == -a0 && a1 * -1 == -a1 && a0 * 1 == a0 && a1 * 1 == a1) by (nonlinear_arith);
    assert(b0 * -1 == -b0 && b1 * -1 == -b1 && b0 * 1 == b0 && b1 * 1 == b1) by (nonlinear_arith);
}

/// Pairwise different crossings reach pairwise different states.
proof fn lemma_outcomes_distinct(p: Problem, s: State, actions: Seq<(i32, i32)>)
    requires
        actions.no_duplicates(),
    ensures
        outcomes(p, s, actions).no_duplicates(),
    decreases actions.len(),
{
    if actions.len() > 0 {
        let rest = actions.drop_last();
        let last = actions.last();
        assert forall|i: int, j: int| 0 <= i < rest.len() && 0 <= j < rest.len() && i != j implies rest[i] != rest[j] by {
            assert(rest[i] == actions[i] && rest[j] == actions[j]);
        }
        lemma_outcomes_distinct(p, s, rest);
        lemma_outcomes_push(p, s, rest, last);
        assert(rest.push(last) =~= actions);
        let o = outcomes(p, s, rest);
        match apply_action_of(p, s, last) {
            Some(c) => {
                if o.contains(c) {
                    lemma_outcome_source(p, s, rest, c);
                    let a = choose|a: (i32, i32)| rest.contains(a) && apply_action_of(p, s, a) == Some(c);
                    lemma_apply_injective(p, s, a, last);
                    let k = choose|k: int| 0 <= k < rest.len() && rest[k] == a;
                    assert(actions[k] == actions[actions.len() - 1]);
                }
                assert forall|i: int, j: int| 0 <= i < o.len() && 0 <= j < seq![c].len() implies o[i] != seq![c][j] by {
                    assert(o.contains(o[i]));
                }
                vstd::seq_lib::lemma_no_dup_in_concat(o, seq![c]);
            },
            None => {
                assert(o + Seq::<State>::empty() =~= o);
            },
        }
    }
}

/// The crossings of a row of mixed loads: `(i + k, i)` for each `k`.
proof fn lemma_mixed_row_elements(i: int, end: int)
    ensures
        mixed_row(i, end).len() == if end > i { end - i } else { 0 },
        forall|k: int| 0 <= k < mixed_row(i, end).len() ==> #[trigger] mixed_row(i, end)[k] == ((i + k) as i32, i as i32),
    decreases end - i,
{
    if end > i {
        lemma_mixed_row_elements(i, end - 1);
        let r = mixed_row(i, end - 1);
        assert forall|k: int| 0 <= k < mixed_row(i, end).len() implies #[trigger] mixed_row(i, end)[k] == ((i + k) as i32, i as i32) by {
            if k < r.len() {
                assert(mixed_row(i, end)[k] == r[k]);
            }
        }
    }
}

/// The mixed crossings tried are pairwise different; each carries from 1 to
/// `n - 1` cannibals and at least as many missionaries.
proof fn lemma_mixed_crossings_distinct(n: int, am: int, capacity: int)
    requires
        n - 1 <= i32::MAX,
        am <= i32::MAX,
    ensures
        mixed_crossings(n, am, capacity).no_duplicates(),
        forall|k: int|
            0 <= k < mixed_crossings(n, am, capacity).len() ==> {
                let a = #[trigger] mixed_crossings(n, am, capacity)[k];
                1 <= a.1 < n && a.1 <= a.0
            },
    decreases n,
{
    if n > 1 {
        lemma_mixed_crossings_distinct(n - 1, am, capacity);
        let prev = mixed_crossings(n - 1, am, capacity);
        let end = row_end(n - 1, am, capacity);
        let row = mixed_row(n - 1, end);
        lemma_mixed_row_elements(n - 1, end);
        assert forall|x: int, y: int| 0 <= x < row.len() && 0 <= y < row.len() && x != y implies row[x] != row[y] by {
            assert(row[x] == ((n - 1 + x) as i32, (n - 1) as i32));
            assert(row[y] == ((n - 1 + y) as i32, (n - 1) as i32));
        }
        assert forall|x: int, y: int| 0 <= x < prev.len() && 0 <= y < row.len() implies prev[x] != row[y] by {
            assert(row[y] == ((n - 1 + y) as i32, (n - 1) as i32));
        }
        vstd::seq_lib::lemma_no_dup_in_concat(prev, row);
        assert forall|k: int| 0 <= k < mixed_crossings(n, am, capacity).len() implies {
            let a = #[trigger] mixed_crossings(n, am, capacity)[k];
            1 <= a.1 < n && a.1 <= a.0
        } by {
            if k < prev.len() {
                assert(mixed_crossings(n, am, capacity)[k] == prev[k]);
            } else {
                assert(mixed_crossings(n, am, capacity)[k] == row[k - prev.len()]);
            }
        }
    }
}

/// The crossings tried from `s` are pairwise different.
proof fn lemma_crossings_distinct(p: Problem, s: State)
    ensures
        crossings(p, s).no_duplicates(),
{
    let cap = p.boat_capacity as int;
    let am = min_int(missionaries_current(p, s), cap);
    let ac = min_int(cannibals_current(p, s), cap);
    lemma_single_crossings_ok(am, cap);
    lemma_single_crossings_ok(ac, cap);
    lemma_mixed_crossings_distinct(ac + 1, am, cap);
    let m = missionary_crossings(am);
    let c = cannibal_crossings(ac);
    let x = mixed_crossings(ac + 1, am, cap);
    assert forall|i: int, j: int| 0 <= i < m.len() && 0 <= j < m.len() && i != j implies m[i] != m[j] by {
        assert(m[i] == ((i + 1) as i32, 0i32) && m[j] == ((j + 1) as i32, 0i32));
    }
    assert forall|i: int, j: int| 0 <= i < c.len() && 0 <= j < c.len() && i != j implies c[i] != c[j] by {
        assert(c[i] == (0i32, (i + 1) as i32) && c[j] == (0i32, (j + 1) as i32));
    }
    assert forall|i: int, j: int| 0 <= i < m.len() && 0 <= j < c.len() implies m[i] != c[j] by {
        assert(m[i] == ((i + 1) as i32, 0i32) && c[j] == (0i32, (j + 1) as i32));
    }
    vstd::seq_lib::lemma_no_dup_in_concat(m, c);
    let mc = m + c;
    assert forall|i: int, j: int| 0 <= i < mc.len() && 0 <= j < x.len() implies mc[i] != x[j] by {
        if i < m.len() {
            assert(mc[i] == m[i]);
        } else {
            assert(mc[i] == c[i - m.len()]);
        }
    }
    vstd::seq_lib::lemma_no_dup_in_concat(mc, x);
    assert(crossings(p, s) == mc + x);
}

/// Law: the children of a state are pairwise different states.
pub proof fn lemma_children_distinct(p: Problem, s: State)
    ensures
        <Problem as a_star::Problem<State>>::spec_children(&p, s).no_duplicates(),
{
    lemma_crossings_distinct(p, s);
    lemma_outcomes_distinct(p, s, crossings(p, s));
}

/// Law: the heuristic counts the people on the left bank, wherever the boat is,
/// in boat loads rounded down: `h * |capacity| <= people < (h + 1) * |capacity|`.
pub proof fn lemma_heuristic_counts_loads(p: Problem, s: State)
    requires
        p.boat_capacity != 0,
        in_box(p, s),
        p.total_missionaries + p.total_cannibals <= i32::MAX,
    ensures
        ({
            let h = <Problem as a_star::Problem<State>>::spec_heuristic(&p, s) as int;
            let people = s.missionaries_at_left + s.cannibals_at_left;
            let cap = abs_int(p.boat_capacity as int);
            h * cap <= people < (h + 1) * cap
        }),
{
    let people = s.missionaries_at_left + s.cannibals_at_left;
    let cap = abs_int(p.boat_capacity as int);
    assert(0 <= people <= i32::MAX);
    assert(cap >= 1);
    let q = people / cap;
    assert(0 <= q <= people) by (nonlinear_arith)
        requires
            0 <= people,
            cap >= 1,
            q == people / cap,
    ;
    assert(q * cap <= people < (q + 1) * cap) by (nonlinear_arith)
        requires
            0 <= people,
            cap >= 1,
            q == people / cap,
    ;
    assert(<Problem as a_star::Problem<State>>::spec_heuristic(&p, s) as int == q);
}

/// Law: every crossing tried carries 1 to `boat_capacity` people, and never
/// more cannibals than missionaries when both are in the boat.
pub proof fn lemma_crossings_ok(p: Problem, s: State)
    ensures
        forall|i: int| 0 <= i < crossings(p, s).len() ==> crossing_ok(p.boat_capacity as int, #[trigger] crossings(p, s)[i]),
{
    let cap = p.boat_capacity as int;
    let am = min_int(missionaries_current(p, s), cap);
    let ac = min_int(cannibals_current(p, s), cap);
    lemma_single_crossings_ok(am, cap);
    lemma_single_crossings_ok(ac, cap);
    lemma_mixed_crossings_ok(ac + 1, am, cap);
    lemma_concat_ok(cap, missionary_crossings(am), cannibal_crossings(ac));
    lemma_concat_ok(cap, missionary_crossings(am) + cannibal_crossings(ac), mixed_crossings(ac + 1, am, cap));
}

} // verus!
