//! The order in which a sweep visits the nodes.

use vstd::prelude::*;
use vstd::relations::{sorted_by, total_ordering};
use vstd::seq_lib::{lemma_multiset_commutative, lemma_sorted_unique};

verus! {

/// Node `a` is visited no later than node `b`: its place is lower, or the
/// places are the same and its number is not higher.
pub open spec fn goes_first(places: Seq<u64>, a: int, b: int) -> bool {
    places[a] < places[b] || (places[a] == places[b] && a <= b)
}

pub open spec fn visiting_order(places: Seq<u64>) -> spec_fn(int, int) -> bool {
    |a: int, b: int| goes_first(places, a, b)
}

/// The numbers `0 .. n - 1`, in ascending order.
pub open spec fn counting(n: nat) -> Seq<int> {
    Seq::new(n, |i: int| i)
}

/// The nodes in the order in which a sweep with these places visits them.
pub open spec fn sweep_order(places: Seq<u64>) -> Seq<int> {
    counting(places.len()).sort_by(visiting_order(places))
}

/// A sequence that lists each of the numbers `0 .. n - 1` once.
pub open spec fn is_listing(order: Seq<int>, n: int) -> bool {
    &&& order.len() == n
    &&& order.no_duplicates()
    &&& forall|k: int| 0 <= k < order.len() ==> 0 <= #[trigger] order[k] < n
    &&& forall|i: int| 0 <= i < n ==> #[trigger] order.contains(i)
}

/// Machine numbers as integers.
pub open spec fn as_ints(s: Seq<usize>) -> Seq<int> {
    s.map_values(|x: usize| x as int)
}

proof fn lemma_visiting_order_total(places: Seq<u64>)
    ensures
        total_ordering(visiting_order(places)),
{
}

/// A sweep visits every node exactly once, in the order of the places.
pub proof fn law_sweep_visits_each_once(places: Seq<u64>)
    ensures
        is_listing(sweep_order(places), places.len() as int),
        sorted_by(sweep_order(places), visiting_order(places)),
{
    broadcast use vstd::seq_lib::group_to_multiset_ensures;

    let plain = counting(places.len());
    let order = sweep_order(places);
    lemma_visiting_order_total(places);
    plain.lemma_sort_by_ensures(visiting_order(places));
    plain.lemma_multiset_has_no_duplicates();
    order.lemma_multiset_has_no_duplicates_conv();
    assert(order.len() == order.to_multiset().len());
    assert(plain.len() == plain.to_multiset().len());
    assert forall|k: int| 0 <= k < order.len() implies 0 <= #[trigger] order[k] < places.len() by {
        assert(order.contains(order[k]));
        assert(order.to_multiset().count(order[k]) > 0);
        assert(plain.contains(order[k]));
    }
    assert forall|i: int| 0 <= i < places.len() implies #[trigger] order.contains(i) by {
        assert(plain[i] == i);
        assert(plain.contains(i));
        assert(plain.to_multiset().count(i) > 0);
    }
}

/// Whether node `a` is visited no later than node `b`.
fn first_of(places: &Vec<u64>, a: usize, b: usize) -> (r: bool)
    requires
        a < places.len(),
        b < places.len(),
    ensures
        r == goes_first(places@, a as int, b as int),
{
    places[a] < places[b] || (places[a] == places[b] && a <= b)
}

/// Merges two sequences of nodes in visiting order.
fn merge(places: &Vec<u64>, left: Vec<usize>, right: Vec<usize>) -> (r: Vec<usize>)
    requires
        forall|k: int| 0 <= k < left.len() ==> #[trigger] left[k] < places.len(),
        forall|k: int| 0 <= k < right.len() ==> #[trigger] right[k] < places.len(),
        sorted_by(as_ints(left@), visiting_order(places@)),
        sorted_by(as_ints(right@), visiting_order(places@)),
    ensures
        as_ints(r@).to_multiset() == as_ints(left@ + right@).to_multiset(),
        sorted_by(as_ints(r@), visiting_order(places@)),
        forall|k: int| 0 <= k < r.len() ==> #[trigger] r[k] < places.len(),
{
    let mut out: Vec<usize> = Vec::new();
    let mut i: usize = 0;
    let mut j: usize = 0;
    proof {
        assert(as_ints(out@) =~= as_ints(left@.take(0)) + as_ints(right@.take(0)));
    }
    while i < left.len() || j < right.len()
        invariant
            i <= left.len(),
            j <= right.len(),
            forall|k: int| 0 <= k < left.len() ==> #[trigger] left[k] < places.len(),
            forall|k: int| 0 <= k < right.len() ==> #[trigger] right[k] < places.len(),
            forall|k: int| 0 <= k < out.len() ==> #[trigger] out[k] < places.len(),
            sorted_by(as_ints(left@), visiting_order(places@)),
            sorted_by(as_ints(right@), visiting_order(places@)),
            sorted_by(as_ints(out@), visiting_order(places@)),
            forall|a: int, b: int|
                0 <= a < out.len() && i <= b < left.len() ==> goes_first(
                    places@,
                    #[trigger] out[a] as int,
                    #[trigger] left[b] as int,
                ),
            forall|a: int, b: int|
                0 <= a < out.len() && j <= b < right.len() ==> goes_first(
                    places@,
                    #[trigger] out[a] as int,
                    #[trigger] right[b] as int,
                ),
            as_ints(out@).to_multiset() == (as_ints(left@.take(i as int)) + as_ints(
                right@.take(j as int),
            )).to_multiset(),
        decreases left.len() - i + right.len() - j,
    {
        let ghost before = out@;
        let take_left = if i >= left.len() {
            false
        } else if j >= right.len() {
            true
        } else {
            first_of(places, left[i], right[j])
        };
        assert(forall|k: int| i <= k < left.len() ==> #[trigger] as_ints(left@)[k] == left[k]);
        assert(forall|k: int| j <= k < right.len() ==> #[trigger] as_ints(right@)[k] == right[k]);
        if take_left {
            proof {
                let x = left[i as int] as int;
                assert forall|b: int| i < b < left.len() implies goes_first(
                    places@,
                    x,
                    #[trigger] left[b] as int,
                ) by {
                    assert(visiting_order(places@)(as_ints(left@)[i as int], as_ints(left@)[b]));
                }
                assert forall|b: int| j <= b < right.len() implies goes_first(
                    places@,
                    x,
                    #[trigger] right[b] as int,
                ) by {
                    if j < b {
                        assert(visiting_order(places@)(
                            as_ints(right@)[j as int],
                            as_ints(right@)[b],
                        ));
                    }
                }
                lemma_push_left(
                    as_ints(out@),
                    as_ints(left@.take(i as int)),
                    as_ints(right@.take(j as int)),
                    left[i as int] as int,
                );
                assert(as_ints(left@.take(i + 1)) =~= as_ints(left@.take(i as int)).push(
                    left[i as int] as int,
                ));
                assert(as_ints(out@.push(left[i as int])) =~= as_ints(out@).push(
                    left[i as int] as int,
                ));
            }
            out.push(left[i]);
            i += 1;
        } else {
            proof {
                let x = right[j as int] as int;
                assert forall|b: int| j < b < right.len() implies goes_first(
                    places@,
                    x,
                    #[trigger] right[b] as int,
                ) by {
                    assert(visiting_order(places@)(as_ints(right@)[j as int], as_ints(right@)[b]));
                }
                assert forall|b: int| i <= b < left.len() implies goes_first(
                    places@,
                    x,
                    #[trigger] left[b] as int,
                ) by {
                    if i < b {
                        assert(visiting_order(places@)(as_ints(left@)[i as int], as_ints(left@)[b]));
                    }
                }
                lemma_push_right(
                    as_ints(out@),
                    as_ints(left@.take(i as int)),
                    as_ints(right@.take(j as int)),
                    right[j as int] as int,
                );
                assert(as_ints(right@.take(j + 1)) =~= as_ints(right@.take(j as int)).push(
                    right[j as int] as int,
                ));
                assert(as_ints(out@.push(right[j as int])) =~= as_ints(out@).push(
                    right[j as int] as int,
                ));
            }
            out.push(right[j]);
            j += 1;
        }
        proof {
            let n = before.len() as int;
            assert forall|a: int, b: int| 0 <= a < b < out.len() implies #[trigger] visiting_order(
                places@,
            )(as_ints(out@)[a], as_ints(out@)[b]) by {
                if b < n {
                    assert(as_ints(before)[a] == as_ints(out@)[a]);
                    assert(as_ints(before)[b] == as_ints(out@)[b]);
                    assert(visiting_order(places@)(as_ints(before)[a], as_ints(before)[b]));
                } else {
                    assert(before[a] == out@[a]);
                }
            }
        }
    }
    proof {
        assert(left@.take(i as int) =~= left@);
        assert(right@.take(j as int) =~= right@);
        assert(as_ints(left@) + as_ints(right@) =~= as_ints(left@ + right@));
    }
    out
}

proof fn lemma_push_left(s: Seq<int>, a: Seq<int>, b: Seq<int>, x: int)
    requires
        s.to_multiset() == (a + b).to_multiset(),
    ensures
        s.push(x).to_multiset() == (a.push(x) + b).to_multiset(),
{
    broadcast use vstd::seq_lib::group_to_multiset_ensures;

    lemma_multiset_commutative(a, b);
    lemma_multiset_commutative(a.push(x), b);
    assert(s.push(x).to_multiset() =~= (a.push(x) + b).to_multiset());
}

proof fn lemma_push_right(s: Seq<int>, a: Seq<int>, b: Seq<int>, x: int)
    requires
        s.to_multiset() == (a + b).to_multiset(),
    ensures
        s.push(x).to_multiset() == (a + b.push(x)).to_multiset(),
{
    broadcast use vstd::seq_lib::group_to_multiset_ensures;

    lemma_multiset_commutative(a, b);
    lemma_multiset_commutative(a, b.push(x));
    assert(s.push(x).to_multiset() =~= (a + b.push(x)).to_multiset());
}

/// The nodes `from .. to - 1`, in visiting order.
fn sorted_run(places: &Vec<u64>, from: usize, to: usize) -> (r: Vec<usize>)
    requires
        from <= to <= places.len(),
    ensures
        as_ints(r@).to_multiset() == counting(places@.len()).subrange(
            from as int,
            to as int,
        ).to_multiset(),
        sorted_by(as_ints(r@), visiting_order(places@)),
        forall|k: int| 0 <= k < r.len() ==> #[trigger] r[k] < places.len(),
    decreases to - from,
{
    let ghost all = counting(places@.len());
    if to - from == 0 {
        let out: Vec<usize> = Vec::new();
        assert(as_ints(out@) =~= all.subrange(from as int, to as int));
        out
    } else if to - from == 1 {
        let mut out: Vec<usize> = Vec::new();
        out.push(from);
        assert(as_ints(out@) =~= all.subrange(from as int, to as int));
        out
    } else {
        let mid: usize = from + (to - from) / 2;
        let left = sorted_run(places, from, mid);
        let right = sorted_run(places, mid, to);
        proof {
            let a = all.subrange(from as int, mid as int);
            let b = all.subrange(mid as int, to as int);
            lemma_multiset_commutative(a, b);
            lemma_multiset_commutative(as_ints(left@), as_ints(right@));
            assert(a + b =~= all.subrange(from as int, to as int));
            assert(as_ints(left@) + as_ints(right@) =~= as_ints(left@ + right@));
        }
        merge(places, left, right)
    }
}

/// The nodes in the order in which a sweep with these places visits them.
pub fn order_of_sweep(places: &Vec<u64>) -> (order: Vec<usize>)
    ensures
        as_ints(order@) == sweep_order(places@),
{
    let order = sorted_run(places, 0, places.len());
    proof {
        let all = counting(places@.len());
        assert(all.subrange(0, places@.len() as int) =~= all);
        lemma_visiting_order_total(places@);
        all.lemma_sort_by_ensures(visiting_order(places@));
        lemma_sorted_unique(as_ints(order@), sweep_order(places@), visiting_order(places@));
    }
    order
}

} // verus!
