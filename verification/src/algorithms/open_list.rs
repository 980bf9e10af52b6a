//! Ordering of the open list: a stable sort by decreasing estimated total
//! cost, so that the node to expand next is the last one.
use vstd::prelude::*;
use std::rc::Rc;
use crate::algorithms::a_star::{State, Node};

verus! {

/// The open list is ordered by decreasing estimated total cost.
pub open spec fn sorted_by_estimate<S: State>(s: Seq<Rc<Node<S>>>) -> bool {
    forall|i: int, j: int|
        0 <= i <= j < s.len() ==> #[trigger] s[j].estimated_total_cost <= #[trigger] s[i].estimated_total_cost
}

/// Inserts `x` into `s` after every element whose estimate is at least that of `x`
/// (scanning from the back), which keeps equal estimates in arrival order.
pub open spec fn insert_by_estimate<S: State>(s: Seq<Rc<Node<S>>>, x: Rc<Node<S>>) -> Seq<Rc<Node<S>>>
    decreases s.len(),
{
    if s.len() == 0 {
        seq![x]
    } else if s.last().estimated_total_cost < x.estimated_total_cost {
        insert_by_estimate(s.drop_last(), x).push(s.last())
    } else {
        s.push(x)
    }
}

/// The stable sort of `s` by decreasing estimated total cost.
pub open spec fn sort_by_estimate<S: State>(s: Seq<Rc<Node<S>>>) -> Seq<Rc<Node<S>>>
    decreases s.len(),
{
    if s.len() == 0 {
        s
    } else {
        insert_by_estimate(sort_by_estimate(s.drop_last()), s.last())
    }
}

proof fn lemma_insert_props<S: State>(s: Seq<Rc<Node<S>>>, x: Rc<Node<S>>)
    ensures
        insert_by_estimate(s, x).to_multiset() =~= s.to_multiset().insert(x),
        insert_by_estimate(s, x).len() == s.len() + 1,
        sorted_by_estimate(s) ==> sorted_by_estimate(insert_by_estimate(s, x)),
        insert_by_estimate(s, x).len() > 0,
        sorted_by_estimate(s) && s.len() > 0 ==> insert_by_estimate(s, x)[0].estimated_total_cost
            == if s[0].estimated_total_cost < x.estimated_total_cost { x.estimated_total_cost } else { s[0].estimated_total_cost },
    decreases s.len(),
{
    broadcast use vstd::seq_lib::group_to_multiset_ensures;
    if s.len() == 0 {
        assert(seq![x] =~= Seq::<Rc<Node<S>>>::empty().push(x));
    } else if s.last().estimated_total_cost < x.estimated_total_cost {
        let r = insert_by_estimate(s.drop_last(), x);
        lemma_insert_props(s.drop_last(), x);
        assert(s.drop_last().push(s.last()) =~= s);
        if sorted_by_estimate(s) {
            assert(sorted_by_estimate(s.drop_last()));
            let t = r.push(s.last());
            assert forall|i: int, j: int| 0 <= i <= j < t.len() implies
                #[trigger] t[j].estimated_total_cost <= #[trigger] t[i].estimated_total_cost by {
                if j == t.len() - 1 && i < j {
                    // every element of r is either x or an element of s.drop_last()
                    assert(r.to_multiset().contains(r[i]));
                    assert(s.drop_last().to_multiset().insert(x).contains(r[i]));
                    if r[i] != x {
                        assert(s.drop_last().to_multiset().contains(r[i]));
                        assert(s.drop_last().contains(r[i]));
                        let k = choose|k: int| 0 <= k < s.drop_last().len() && s.drop_last()[k] == r[i];
                        assert(s[k] == r[i]);
                    }
                }
            }
        }
    } else {
        if sorted_by_estimate(s) {
            let t = s.push(x);
            assert forall|i: int, j: int| 0 <= i <= j < t.len() implies
                #[trigger] t[j].estimated_total_cost <= #[trigger] t[i].estimated_total_cost by {
                if j == t.len() - 1 && i < j {
                    assert(s[i].estimated_total_cost >= s[s.len() - 1].estimated_total_cost);
                }
            }
        }
    }
}

/// Sorting yields a permutation of its input, ordered by decreasing estimate.
pub proof fn lemma_sort_by_estimate<S: State>(s: Seq<Rc<Node<S>>>)
    ensures
        sort_by_estimate(s).to_multiset() =~= s.to_multiset(),
        sort_by_estimate(s).len() == s.len(),
        sorted_by_estimate(sort_by_estimate(s)),
    decreases s.len(),
{
    broadcast use vstd::seq_lib::group_to_multiset_ensures;
    if s.len() > 0 {
        lemma_sort_by_estimate(s.drop_last());
        lemma_insert_props(sort_by_estimate(s.drop_last()), s.last());
        assert(s.drop_last().push(s.last()) =~= s);
    }
}

/// Sorts the open list in place: the stable sort by decreasing estimated total cost.
pub fn sort_open<S: State>(v: &mut Vec<Rc<Node<S>>>)
    ensures
        final(v)@ == sort_by_estimate(old(v)@),
{
    let ghost orig = v@;
    let n = v.len();
    let mut i: usize = 0;
    assert(orig.subrange(0, 0) =~= Seq::<Rc<Node<S>>>::empty());
    while i < n
        invariant
            v@.len() == n,
            n == orig.len(),
            i <= n,
            v@.subrange(0, i as int) == sort_by_estimate(orig.subrange(0, i as int)),
            v@.subrange(i as int, n as int) == orig.subrange(i as int, n as int),
        decreases n - i,
    {
        let ghost prefix = v@.subrange(0, i as int);
        let ghost x = v@[i as int];
        let key = v[i].estimated_total_cost;
        let mut j: usize = i;
        assert(v@.subrange(i as int, n as int)[0] == x);
        assert(x == orig[i as int]);
        assert(prefix.subrange(0, i as int) =~= prefix);
        assert(prefix.subrange(i as int, i as int) =~= Seq::<Rc<Node<S>>>::empty());
        while j > 0 && v[j - 1].estimated_total_cost < key
            invariant
                j <= i < n,
                v@.len() == n,
                v@.subrange(0, i as int) == prefix,
                v@[i as int] == x,
                key == x.estimated_total_cost,
                insert_by_estimate(prefix, x) == insert_by_estimate(prefix.subrange(0, j as int), x)
                    + prefix.subrange(j as int, i as int),
            decreases j,
        {
            let ghost p = prefix.subrange(0, j as int);
            assert(p.drop_last() =~= prefix.subrange(0, j - 1));
            assert(p.last() == prefix[j - 1]);
            assert(prefix.subrange(j - 1, i as int) =~= seq![prefix[j - 1]] + prefix.subrange(j as int, i as int));
            assert(insert_by_estimate(p, x) == insert_by_estimate(p.drop_last(), x).push(p.last()));
            assert(insert_by_estimate(p.drop_last(), x).push(p.last()) + prefix.subrange(j as int, i as int)
                =~= insert_by_estimate(p.drop_last(), x) + prefix.subrange(j - 1, i as int));
            j = j - 1;
        }
        let ghost p = prefix.subrange(0, j as int);
        if j == 0 {
            assert(insert_by_estimate(p, x) =~= seq![x]);
        } else {
            assert(insert_by_estimate(p, x) == p.push(x));
        }
        let ghost before = v@;
        if j < i {
            let y = v.remove(i);
            v.insert(j, y);
        }
        assert forall|k: int| i < k < n implies v@[k] == orig[k] by {
            assert(before.subrange(i as int, n as int)[k - i] == orig.subrange(i as int, n as int)[k - i]);
        }
        assert(orig.subrange(0, i + 1).drop_last() =~= orig.subrange(0, i as int));
        assert(orig.subrange(0, i + 1).last() == x);
        assert(v@.subrange(0, i + 1) =~= insert_by_estimate(prefix, x));
        assert(v@.subrange(i + 1, n as int) =~= orig.subrange(i + 1, n as int));
        i = i + 1;
    }
    assert(v@ =~= v@.subrange(0, n as int));
    assert(orig =~= orig.subrange(0, n as int));
}

} // verus!
