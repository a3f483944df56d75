//! Asynchronous label propagation.

use vstd::prelude::*;
use crate::hash::fnv1a;
use crate::network::{lemma_adopted_is, own_labels, places, Network};
use crate::string_map::texts;
use crate::sums::{
    lemma_sum_at_least_term, lemma_sum_monotone, lemma_sum_nonnegative, lemma_sum_reindex,
    magnitude, sum,
};
use crate::sweep::{as_ints, is_listing, law_sweep_visits_each_once, order_of_sweep, sweep_order};

verus! {

/// Networks are handled up to this bulk; all totals taken over them then fit a
/// machine integer.
pub const BULK_LIMIT: i128 = 0x1000_0000_0000_0000_0000_0000_0000_0000;

/// One end of a link: the neighbor, and the weight between the two.
#[derive(Clone, Copy, Debug)]
pub struct Link {
    pub node: usize,
    pub weight: i128,
}

/// The nodes that a row of links leads to.
pub open spec fn ends(row: Seq<Link>) -> Seq<int> {
    row.map_values(|link: Link| link.node as int)
}

/// The row lists the links of node `i`, each neighbor once.
pub open spec fn row_lists(row: Seq<Link>, net: Network, i: int) -> bool {
    &&& ends(row).no_duplicates()
    &&& forall|e: int|
        0 <= e < row.len() ==> net.linked(i, (#[trigger] row[e]).node as int) && row[e].weight
            == net.weight(i, row[e].node as int)
    &&& forall|j: int| #[trigger] net.linked(i, j) ==> ends(row).contains(j)
}

/// The rows list the links of the network.
pub open spec fn rows_list(rows: Seq<Vec<Link>>, net: Network) -> bool {
    &&& net.well_formed()
    &&& rows.len() == net.size
    &&& forall|i: int| 0 <= i < rows.len() ==> row_lists(#[trigger] rows[i]@, net, i)
}

pub open spec fn tally_term(row: Seq<Link>, labels: Seq<usize>, label: int) -> spec_fn(
    int,
) -> int {
    |e: int|
        if labels[row[e].node as int] == label {
            row[e].weight as int
        } else {
            0
        }
}

pub open spec fn link_magnitude(row: Seq<Link>) -> spec_fn(int) -> int {
    |e: int| magnitude(row[e].weight as int)
}

/// Adding up the links of a row that lead to a label gives the pull of the label.
pub proof fn lemma_tally_is_pull(
    net: Network,
    row: Seq<Link>,
    labels: Seq<usize>,
    i: int,
    label: int,
)
    requires
        net.well_formed(),
        row_lists(row, net, i),
        labels.len() == net.size,
    ensures
        sum(tally_term(row, labels, label), row.len() as int) == net.pull(
            as_ints(labels),
            i,
            label,
        ),
{
    let g = net.pull_term(as_ints(labels), i, label);
    let places = ends(row);
    assert forall|e: int| 0 <= e < places.len() implies 0 <= #[trigger] places[e] < net.size by {
        assert(net.linked(i, row[e].node as int));
    }
    assert forall|e: int| 0 <= e < places.len() implies #[trigger] tally_term(row, labels, label)(e)
        == g(places[e]) by {
        assert(net.linked(i, row[e].node as int));
    }
    assert forall|j: int| 0 <= j < net.size implies #[trigger] g(j) == (if places.contains(j) {
        g(j)
    } else {
        0
    }) by {
        if !places.contains(j) {
            assert(!net.linked(i, j));
        }
    }
    lemma_sum_reindex(g, places, tally_term(row, labels, label), g, net.size as int);
}

/// The magnitudes along a row stay within the bulk of the network.
pub proof fn lemma_row_within_bulk(net: Network, row: Seq<Link>, i: int, k: int)
    requires
        net.well_formed(),
        row_lists(row, net, i),
        0 <= i < net.size,
        0 <= k <= row.len(),
    ensures
        0 <= sum(link_magnitude(row), k) <= net.bulk(),
{
    let g = net.magnitude_term(i);
    let places = ends(row);
    assert forall|e: int| 0 <= e < places.len() implies 0 <= #[trigger] places[e] < net.size by {
        assert(net.linked(i, row[e].node as int));
    }
    assert forall|e: int| 0 <= e < places.len() implies #[trigger] link_magnitude(row)(e) == g(
        places[e],
    ) by {
        assert(net.linked(i, row[e].node as int));
    }
    assert forall|j: int| 0 <= j < net.size implies #[trigger] g(j) == (if places.contains(j) {
        g(j)
    } else {
        0
    }) by {
        if !places.contains(j) {
            assert(!net.linked(i, j));
        }
    }
    lemma_sum_reindex(g, places, link_magnitude(row), g, net.size as int);
    lemma_sum_monotone(link_magnitude(row), k, row.len() as int);
    lemma_sum_nonnegative(link_magnitude(row), k);
    assert forall|a: int| 0 <= a < net.size implies #[trigger] net.row_magnitude()(a) >= 0 by {
        lemma_sum_nonnegative(net.magnitude_term(a), net.size as int);
    }
    lemma_sum_at_least_term(net.row_magnitude(), net.size as int, i);
}

pub proof fn lemma_tally_bounded(row: Seq<Link>, labels: Seq<usize>, label: int, k: int)
    requires
        0 <= k,
    ensures
        magnitude(sum(tally_term(row, labels, label), k)) <= sum(link_magnitude(row), k),
    decreases k,
{
    if k > 0 {
        lemma_tally_bounded(row, labels, label, k - 1);
    }
}

/// The tally holds, for every label, the weight that the first `k` links give it.
spec fn tallied(tally: Seq<i128>, row: Seq<Link>, labels: Seq<usize>, k: int) -> bool {
    forall|label: int|
        0 <= label < tally.len() ==> #[trigger] tally[label] == sum(
            tally_term(row, labels, label),
            k,
        )
}

/// The label that a node with neighbors adopts. The tally is all zero before
/// and after.
fn heaviest(
    Ghost(net): Ghost<Network>,
    Ghost(i): Ghost<int>,
    row: &Vec<Link>,
    labels: &Vec<usize>,
    tally: &mut Vec<i128>,
) -> (label: usize)
    requires
        net.well_formed(),
        net.bulk() <= BULK_LIMIT,
        0 <= i < net.size,
        row_lists(row@, net, i),
        row.len() > 0,
        labels.len() == net.size,
        old(tally).len() == net.size,
        forall|j: int| 0 <= j < labels.len() ==> #[trigger] labels[j] < net.size,
        forall|l: int| 0 <= l < old(tally).len() ==> #[trigger] old(tally)[l] == 0,
    ensures
        net.adopted(as_ints(labels@), i) == label,
        label < net.size,
        final(tally).len() == old(tally).len(),
        forall|l: int| 0 <= l < final(tally).len() ==> #[trigger] final(tally)[l] == 0,
{
    let mut k: usize = 0;
    while k < row.len()
        invariant
            k <= row.len(),
            net.well_formed(),
            net.bulk() <= BULK_LIMIT,
            0 <= i < net.size,
            row_lists(row@, net, i),
            labels.len() == net.size,
            tally.len() == net.size,
            forall|j: int| 0 <= j < labels.len() ==> #[trigger] labels[j] < net.size,
            tallied(tally@, row@, labels@, k as int),
        decreases row.len() - k,
    {
        let link = row[k];
        assert(net.linked(i, row@[k as int].node as int));
        let label = labels[link.node];
        proof {
            lemma_tally_bounded(row@, labels@, label as int, k + 1);
            lemma_row_within_bulk(net, row@, i, k + 1);
            assert(tally@[label as int] == sum(tally_term(row@, labels@, label as int), k as int));
        }
        tally[label] = tally[label] + link.weight;
        k += 1;
    }
    assert(net.linked(i, row@[0].node as int));
    let mut best: usize = labels[row[0].node];
    let ghost mut witness: int = 0;
    let mut k: usize = 1;
    while k < row.len()
        invariant
            1 <= k <= row.len(),
            net.well_formed(),
            row_lists(row@, net, i),
            labels.len() == net.size,
            tally.len() == net.size,
            forall|j: int| 0 <= j < labels.len() ==> #[trigger] labels[j] < net.size,
            0 <= witness < row.len(),
            best == labels[row@[witness].node as int],
            best < net.size,
            forall|e: int|
                0 <= e < k ==> {
                    let other = labels[(#[trigger] row@[e]).node as int];
                    ||| tally[other as int] < tally[best as int]
                    ||| tally[other as int] == tally[best as int] && best <= other
                },
        decreases row.len() - k,
    {
        assert(net.linked(i, row@[k as int].node as int));
        assert(forall|e: int|
            0 <= e < k ==> net.linked(i, (#[trigger] row@[e]).node as int));
        let label = labels[row[k].node];
        if tally[label] > tally[best] || (tally[label] == tally[best] && label < best) {
            best = label;
            proof {
                witness = k as int;
            }
        }
        k += 1;
    }
    proof {
        let ints = as_ints(labels@);
        assert(net.linked(i, row@[witness].node as int));
        assert(ints[row@[witness].node as int] == best);
        assert forall|j: int| #[trigger] net.linked(i, j) implies {
            ||| net.pull(ints, i, ints[j]) < net.pull(ints, i, best as int)
            ||| net.pull(ints, i, ints[j]) == net.pull(ints, i, best as int) && best <= ints[j]
        } by {
            assert(ends(row@).contains(j));
            let e = choose|e: int| 0 <= e < ends(row@).len() && ends(row@)[e] == j;
            assert(row@[e].node == j);
            lemma_tally_is_pull(net, row@, labels@, i, ints[j]);
            lemma_tally_is_pull(net, row@, labels@, i, best as int);
            assert(labels[j] < net.size);
        }
        assert(net.is_heaviest(ints, i, best as int));
        lemma_adopted_is(net, ints, i, best as int);
    }
    let mut k: usize = 0;
    while k < row.len()
        invariant
            k <= row.len(),
            net.well_formed(),
            row_lists(row@, net, i),
            labels.len() == net.size,
            tally.len() == net.size,
            forall|j: int| 0 <= j < labels.len() ==> #[trigger] labels[j] < net.size,
            forall|l: int|
                0 <= l < tally.len() ==> #[trigger] tally[l] == 0 || tally[l] == sum(
                    tally_term(row@, labels@, l),
                    row@.len() as int,
                ),
            forall|e: int| 0 <= e < k ==> tally[labels[(#[trigger] row@[e]).node as int] as int] == 0,
        decreases row.len() - k,
    {
        assert(net.linked(i, row@[k as int].node as int));
        tally[labels[row[k].node]] = 0;
        k += 1;
    }
    proof {
        assert forall|l: int| 0 <= l < tally.len() implies #[trigger] tally[l] == 0 by {
            if forall|e: int| 0 <= e < row@.len() ==> labels[(#[trigger] row@[e]).node as int] != l {
                crate::sums::lemma_sum_zero(tally_term(row@, labels@, l), row@.len() as int);
            }
        }
    }
    best
}

/// One sweep: visits the nodes in the given order, and says whether a label changed.
fn sweep_once(
    Ghost(net): Ghost<Network>,
    rows: &Vec<Vec<Link>>,
    order: &Vec<usize>,
    labels: &mut Vec<usize>,
    tally: &mut Vec<i128>,
) -> (changed: bool)
    requires
        rows_list(rows@, net),
        net.bulk() <= BULK_LIMIT,
        is_listing(as_ints(order@), net.size as int),
        old(labels).len() == net.size,
        old(tally).len() == net.size,
        forall|j: int| 0 <= j < old(labels).len() ==> #[trigger] old(labels)[j] < net.size,
        forall|l: int| 0 <= l < old(tally).len() ==> #[trigger] old(tally)[l] == 0,
    ensures
        as_ints(final(labels)@) == net.swept(as_ints(old(labels)@), as_ints(order@)),
        changed == (as_ints(final(labels)@) != as_ints(old(labels)@)),
        final(labels).len() == net.size,
        final(tally).len() == net.size,
        forall|j: int| 0 <= j < final(labels).len() ==> #[trigger] final(labels)[j] < net.size,
        forall|l: int| 0 <= l < final(tally).len() ==> #[trigger] final(tally)[l] == 0,
{
    let ghost start = as_ints(labels@);
    let ghost visits = as_ints(order@);
    let mut changed = false;
    let mut k: usize = 0;
    while k < order.len()
        invariant
            k <= order.len(),
            rows_list(rows@, net),
            net.bulk() <= BULK_LIMIT,
            visits == as_ints(order@),
            is_listing(visits, net.size as int),
            labels.len() == net.size,
            tally.len() == net.size,
            start.len() == net.size,
            forall|j: int| 0 <= j < labels.len() ==> #[trigger] labels[j] < net.size,
            forall|l: int| 0 <= l < tally.len() ==> #[trigger] tally[l] == 0,
            as_ints(labels@) == net.visited(start, visits, k as nat),
            forall|m: int|
                k <= m < visits.len() ==> as_ints(labels@)[#[trigger] visits[m]]
                    == start[visits[m]],
            changed == (as_ints(labels@) != start),
        decreases order.len() - k,
    {
        let node = order[k];
        assert(visits[k as int] == node);
        let ghost before = as_ints(labels@);
        assert(row_lists(rows@[node as int]@, net, node as int));
        if rows[node].len() > 0 {
            let label = heaviest(Ghost(net), Ghost(node as int), &rows[node], labels, tally);
            if label != labels[node] {
                labels[node] = label;
                changed = true;
                assert(as_ints(labels@) =~= before.update(node as int, label as int));
                proof {
                    assert(as_ints(labels@)[node as int] != start[node as int]);
                    assert forall|m: int| k < m < visits.len() implies as_ints(
                        labels@,
                    )[#[trigger] visits[m]] == start[visits[m]] by {
                        assert(visits[m] != visits[k as int]);
                    }
                }
            } else {
                assert(before.update(node as int, label as int) =~= before);
            }
        } else {
            proof {
                if net.has_neighbor(node as int) {
                    let j = choose|j: int| net.linked(node as int, j);
                    assert(ends(rows@[node as int]@).contains(j));
                }
                assert(before.update(node as int, before[node as int]) =~= before);
            }
        }
        assert(net.visited(start, visits, (k + 1) as nat) == before.update(
            node as int,
            net.adopted(before, node as int),
        ));
        k += 1;
    }
    changed
}

/// The communities of a network whose nodes have the given identifiers.
pub(crate) fn propagate(
    Ghost(net): Ghost<Network>,
    rows: &Vec<Vec<Link>>,
    ids: &Vec<String>,
    limit: usize,
) -> (labels: Vec<usize>)
    requires
        rows_list(rows@, net),
        net.bulk() <= BULK_LIMIT,
        ids.len() == net.size,
    ensures
        as_ints(labels@) == net.communities(texts(ids@), limit as nat),
        labels.len() == net.size,
        forall|j: int| 0 <= j < labels.len() ==> #[trigger] labels[j] < net.size,
{
    let n = rows.len();
    let mut labels: Vec<usize> = Vec::new();
    let mut tally: Vec<i128> = Vec::new();
    let mut i: usize = 0;
    while i < n
        invariant
            i <= n,
            labels.len() == i,
            tally.len() == i,
            forall|j: int| 0 <= j < labels.len() ==> #[trigger] labels[j] == j,
            forall|l: int| 0 <= l < tally.len() ==> #[trigger] tally[l] == 0,
        decreases n - i,
    {
        labels.push(i);
        tally.push(0);
        i += 1;
    }
    assert(as_ints(labels@) =~= own_labels(net.size));
    let ghost ids_view = texts(ids@);
    let mut spots: Vec<u64> = Vec::new();
    let mut i: usize = 0;
    while i < n
        invariant
            i <= n,
            n == ids.len(),
            ids_view == texts(ids@),
            spots.len() == i,
            forall|j: int| 0 <= j < i ==> #[trigger] spots[j] == places(ids_view)[j],
        decreases n - i,
    {
        spots.push(fnv1a(ids[i].as_str()));
        i += 1;
    }
    assert(spots@ =~= places(ids_view));
    let order = order_of_sweep(&spots);
    proof {
        law_sweep_visits_each_once(spots@);
    }
    let mut left: usize = limit;
    while left > 0
        invariant
            rows_list(rows@, net),
            net.bulk() <= BULK_LIMIT,
            ids_view == texts(ids@),
            as_ints(order@) == sweep_order(places(ids_view)),
            is_listing(as_ints(order@), net.size as int),
            labels.len() == net.size,
            tally.len() == net.size,
            forall|j: int| 0 <= j < labels.len() ==> #[trigger] labels[j] < net.size,
            forall|l: int| 0 <= l < tally.len() ==> #[trigger] tally[l] == 0,
            net.communities(ids_view, limit as nat) == net.propagated(
                ids_view,
                as_ints(labels@),
                left as nat,
            ),
        decreases left,
    {
        let changed = sweep_once(Ghost(net), rows, &order, &mut labels, &mut tally);
        if !changed {
            return labels;
        }
        left -= 1;
    }
    labels
}

} // verus!
