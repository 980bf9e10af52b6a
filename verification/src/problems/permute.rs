//! Sorting a combination of numbers: the goal is a combination in
//! non-decreasing order. No moves are defined yet, so a search only checks the
//! start.
use vstd::prelude::*;
use std::rc::Rc;
use crate::algorithms::a_star;
use crate::algorithms::a_star::{rc_values, rc_clone};

verus! {

/// A cell of an immutable list of numbers, shared between states.
#[derive(Clone, PartialEq, Eq, Hash, Debug)]
pub struct Link {
    pub value: u32,
    pub next: Option<Rc<Link>>,
}

/// The numbers of a list, in order.
pub open spec fn link_values(list: Option<Rc<Link>>) -> Seq<u32>
    decreases list,
{
    match list {
        None => seq![],
        Some(cell) => seq![cell.value] + link_values(cell.next),
    }
}

#[derive(Clone, PartialEq, Eq, Hash, Debug)]
pub struct State {
    combination: Option<Rc<Link>>,
}

impl State {
    pub closed spec fn spec_combination(&self) -> Seq<u32> {
        link_values(self.combination)
    }

    /// The state holding the numbers of `combination`.
    pub fn new(combination: Vec<u32>) -> (r: State)
        ensures
            r.spec_combination() == combination@,
    {
        State { combination: list_of(&combination) }
    }

    /// A copy of this state, sharing its list.
    fn duplicate(&self) -> (r: State)
        ensures
            r == *self,
    {
        let combination = match &self.combination {
            None => None,
            Some(cell) => Some(rc_clone(cell)),
        };
        State { combination }
    }
}

/// The list of the numbers of `values`.
fn list_of(values: &Vec<u32>) -> (r: Option<Rc<Link>>)
    ensures
        link_values(r) == values@,
{
    let mut list: Option<Rc<Link>> = None;
    let mut i: usize = values.len();
    while i > 0
        invariant
            i <= values@.len(),
            link_values(list) == values@.subrange(i as int, values@.len() as int),
        decreases i,
    {
        i = i - 1;
        let cell = Link { value: values[i], next: list };
        list = Some(Rc::new(cell));
        proof {
            assert(values@.subrange(i as int, values@.len() as int) =~= seq![values@[i as int]] + values@.subrange(
                i + 1,
                values@.len() as int,
            ));
        }
    }
    proof {
        assert(values@.subrange(0, values@.len() as int) =~= values@);
    }
    list
}

/// Whether two lists hold the same numbers, which makes them equal.
fn same_links(a: &Option<Rc<Link>>, b: &Option<Rc<Link>>) -> (r: bool)
    ensures
        r == (*a == *b),
    decreases *a,
{
    match (a, b) {
        (None, None) => true,
        (Some(x), Some(y)) => {
            if x.value != y.value {
                return false;
            }
            let rest = same_links(&x.next, &y.next);
            proof {
                if rest {
                    assert(**x == **y);
                }
            }
            rest
        },
        _ => false,
    }
}

impl a_star::State for State {
    fn same_state(&self, other: &Self) -> (r: bool) {
        same_links(&self.combination, &other.combination)
    }
}

/// Each number is at most the next one.
pub open spec fn is_sorted(s: Seq<u32>) -> bool {
    forall|i: int| 0 < i < s.len() ==> s[i - 1] <= #[trigger] s[i]
}

pub struct Problem {
    start_state: State,
}

impl Problem {
    pub closed spec fn spec_start(&self) -> State {
        self.start_state
    }

    /// The problem of sorting `start_combination`.
    pub fn create(start_combination: Vec<u32>) -> (r: Self)
        ensures
            r.spec_start().spec_combination() == start_combination@,
    {
        let start_state = State::new(start_combination);
        Self { start_state }
    }

    /// No moves are defined: there are no children.
    pub fn children(&self, _state: &State) -> (r: Vec<State>)
        ensures
            r@.len() == 0,
    {
        Vec::new()
    }
}

impl a_star::Problem<State> for Problem {
    open spec fn well_posed(&self) -> bool {
        true
    }

    open spec fn spec_children(&self, state: State) -> Seq<State> {
        Seq::empty()
    }

    open spec fn spec_is_goal(&self, state: State) -> bool {
        is_sorted(state.spec_combination())
    }

    open spec fn spec_cost(&self, state: State) -> u32 {
        1
    }

    open spec fn spec_heuristic(&self, state: State) -> u32 {
        0
    }

    open spec fn spec_start_state(&self) -> State {
        self.spec_start()
    }

    open spec fn in_domain(&self, state: State) -> bool {
        self.in_state_space(state)
    }

    open spec fn in_state_space(&self, state: State) -> bool {
        state == self.spec_start()
    }

    open spec fn state_index(&self, state: State) -> nat {
        0
    }

    open spec fn state_space_size(&self) -> nat {
        1
    }

    proof fn lemma_state_space(&self) {
    }

    fn children(&self, state: &State) -> (r: Vec<Rc<State>>) {
        let states = self.children(state);
        let mut result: Vec<Rc<State>> = Vec::new();
        let mut i: usize = 0;
        while i < states.len()
            invariant
                states@.len() == 0,
                i <= states@.len(),
            decreases states@.len() - i,
        {
            i = i + 1;
        }
        proof {
            assert(rc_values(result@) =~= Seq::<State>::empty());
        }
        result
    }

    /// Whether the combination is in non-decreasing order.
    fn is_goal(&self, state: &State) -> (r: bool) {
        sorted_links(&state.combination)
    }

    fn cost(&self, _state: &State) -> (r: u32) {
        1
    }

    fn heuristic(&self, _state: &State) -> (r: u32) {
        0
    }

    fn start_state(&self) -> (r: State) {
        self.start_state.duplicate()
    }
}

/// Whether the numbers of a list are in non-decreasing order.
fn sorted_links(list: &Option<Rc<Link>>) -> (r: bool)
    ensures
        r == is_sorted(link_values(*list)),
    decreases *list,
{
    match list {
        None => true,
        Some(cell) => {
            let rest = sorted_links(&cell.next);
            let first_ok = match &cell.next {
                None => true,
                Some(next) => cell.value <= next.value,
            };
            proof {
                assert(link_values(*list) == seq![cell.value] + link_values(cell.next));
                if first_ok && rest {
                    assert forall|i: int| 0 < i < link_values(*list).len() implies link_values(*list)[i - 1] <= #[trigger] link_values(*list)[i] by {
                        if i >= 2 {
                            assert(link_values(*list)[i - 1] == link_values(cell.next)[i - 2]);
                            assert(link_values(*list)[i] == link_values(cell.next)[i - 1]);
                        } else {
                            assert(link_values(*list)[1] == link_values(cell.next)[0]);
                        }
                    }
                }
                if is_sorted(link_values(*list)) {
                    assert forall|i: int| 0 < i < link_values(cell.next).len() implies link_values(cell.next)[i - 1]
                        <= #[trigger] link_values(cell.next)[i] by {
                        assert(link_values(*list)[i] == link_values(cell.next)[i - 1]);
                        assert(link_values(*list)[i + 1] == link_values(cell.next)[i]);
                    }
                    assert(link_values(cell.next).len() > 0 ==> link_values(*list)[1] == link_values(cell.next)[0]);
                }
                if !first_ok {
                    assert(link_values(*list)[1] == link_values(cell.next)[0]);
                }
            }
            first_ok && rest
        },
    }
}

} // verus!
