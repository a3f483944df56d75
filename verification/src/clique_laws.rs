//! Label propagation on disjoint cliques finds exactly the cliques.

use vstd::prelude::*;
use crate::network::{lemma_adopted_is, own_labels, places, Network};
use crate::network_laws::{
    connected, is_path, law_community_is_connected, law_heaviest_exists, law_settled_labels_stay,
    lemma_unvisited_unchanged, lemma_visited_len,
};
use crate::sums::{lemma_sum_at_least_term, lemma_sum_single};
use crate::sweep::{is_listing, law_sweep_visits_each_once, sweep_order};

verus! {

/// The network is a union of disjoint cliques. No weight is negative, and the
/// links of one clique all have the same.
pub open spec fn is_union_of_cliques(net: Network) -> bool {
    &&& net.well_formed()
    &&& forall|i: int, j: int| #[trigger] net.linked(i, j) ==> net.weight(i, j) >= 0
    &&& forall|i: int, j: int, k: int|
        #![trigger net.linked(i, j), net.linked(i, k)]
        net.linked(i, j) && net.linked(i, k) ==> net.weight(i, j) == net.weight(i, k)
    &&& forall|i: int, j: int, k: int|
        #![trigger net.linked(i, j), net.linked(j, k)]
        net.linked(i, j) && net.linked(j, k) && i != k ==> net.linked(i, k)
}

/// The two nodes belong to the same clique.
pub open spec fn same_clique(net: Network, i: int, j: int) -> bool {
    i == j || net.linked(i, j)
}

proof fn lemma_path_stays_in_clique(net: Network, path: Seq<int>, i: int, j: int)
    requires
        is_union_of_cliques(net),
        is_path(net, path, i, j),
    ensures
        same_clique(net, i, j),
    decreases path.len(),
{
    if path.len() > 1 {
        let shorter = path.drop_last();
        let k = shorter.last();
        assert forall|m: int| 0 <= m < shorter.len() - 1 implies net.linked(
            #[trigger] shorter[m],
            shorter[m + 1],
        ) by {
            assert(net.linked(path[m], path[m + 1]));
        }
        lemma_path_stays_in_clique(net, shorter, i, k);
        assert(net.linked(path[path.len() - 2], path[path.len() - 2 + 1]));
        assert(net.linked(k, j));
        if i != k && i != j {
            assert(net.linked(i, k));
        }
    }
}

proof fn lemma_pull_at_least_one_link(
    net: Network,
    labels: Seq<int>,
    x: int,
    j: int,
)
    requires
        is_union_of_cliques(net),
        net.linked(x, j),
    ensures
        net.pull(labels, x, labels[j]) >= net.weight(x, j),
{
    let term = net.pull_term(labels, x, labels[j]);
    assert forall|m: int| 0 <= m < net.size implies #[trigger] term(m) >= 0 by {
        if net.linked(x, m) {
        }
    }
    lemma_sum_at_least_term(term, net.size as int, j);
}

proof fn lemma_pull_of_own_label(net: Network, labels: Seq<int>, x: int, j: int)
    requires
        is_union_of_cliques(net),
        net.linked(x, j),
        forall|m: int| #[trigger] net.linked(x, m) && m != j ==> labels[m] != labels[j],
    ensures
        net.pull(labels, x, labels[j]) == net.weight(x, j),
{
    let term = net.pull_term(labels, x, labels[j]);
    assert forall|m: int| 0 <= m < net.size && m != j implies #[trigger] term(m) == 0 by {
        if net.linked(x, m) {
        }
    }
    lemma_sum_single(term, net.size as int, j);
}

/// The clique of `i`, part-way through the first sweep: once one of its members
/// was visited, every visited member carries the label `c`, and no member
/// carries a smaller one.
spec fn agreed(
    net: Network,
    order: Seq<int>,
    labels: Seq<int>,
    visits: nat,
    i: int,
    c: int,
    a: int,
    b: int,
) -> bool {
    &&& forall|k: int|
        0 <= k < visits && same_clique(net, i, #[trigger] order[k]) ==> labels[order[k]] == c
    &&& forall|m: int| 0 <= m < net.size && same_clique(net, i, m) ==> #[trigger] labels[m] >= c
    &&& same_clique(net, i, a) && same_clique(net, i, b) && a != b
    &&& 0 <= a < net.size && 0 <= b < net.size
    &&& labels[a] == c && labels[b] == c
}

spec fn untouched(net: Network, order: Seq<int>, visits: nat, i: int) -> bool {
    forall|k: int| 0 <= k < visits ==> !same_clique(net, i, #[trigger] order[k])
}

/// A member that was not visited still carries its own label.
proof fn lemma_own_or_visited(net: Network, order: Seq<int>, visits: nat, m: int)
    requires
        net.well_formed(),
        is_listing(order, net.size as int),
        visits <= order.len(),
        0 <= m < net.size,
    ensures
        net.visited(own_labels(net.size), order, visits)[m] == m || exists|k: int|
            0 <= k < visits && #[trigger] order[k] == m,
{
    assert(order.contains(m));
    let k = choose|k: int| 0 <= k < order.len() && order[k] == m;
    if k >= visits {
        lemma_unvisited_unchanged(net, own_labels(net.size), order, visits, k);
    }
}

proof fn lemma_first_member_visit(
    net: Network,
    order: Seq<int>,
    visits: nat,
    i: int,
) -> (c: int)
    requires
        is_union_of_cliques(net),
        is_listing(order, net.size as int),
        visits < order.len(),
        net.has_neighbor(i),
        untouched(net, order, visits, i),
        same_clique(net, i, order[visits as int]),
    ensures
        agreed(
            net,
            order,
            net.visited(own_labels(net.size), order, visits + 1),
            visits + 1,
            i,
            c,
            order[visits as int],
            c,
        ),
{
    let own = own_labels(net.size);
    let labels = net.visited(own, order, visits);
    let x = order[visits as int];
    let c = net.adopted(labels, x);
    let after = net.visited(own, order, visits + 1);
    lemma_visited_len(net, own, order, visits);
    assert(after == labels.update(x, c));
    let nb = choose|j: int| net.linked(i, j);
    assert(net.has_neighbor(x)) by {
        if x != i {
            assert(net.linked(i, x));
            assert(net.linked(x, i));
        }
    }
    law_heaviest_exists(net, labels, x);
    let j = choose|j: int| #[trigger] net.linked(x, j) && 0 <= j < net.size && labels[j] == c;
    assert forall|m: int| #[trigger] net.linked(x, m) implies labels[m] == m && same_clique(
        net,
        i,
        m,
    ) by {
        if x != i {
            assert(net.linked(i, x));
        }
        lemma_own_or_visited(net, order, visits, m);
        if exists|k: int| 0 <= k < visits && #[trigger] order[k] == m {
            let k = choose|k: int| 0 <= k < visits && #[trigger] order[k] == m;
            assert(!same_clique(net, i, order[k]));
        }
    }
    assert(labels[j] == j);
    assert forall|m: int| #[trigger] net.linked(x, m) implies c <= m by {
        lemma_pull_of_own_label(net, labels, x, m);
        lemma_pull_of_own_label(net, labels, x, j);
    }
    assert forall|m: int| 0 <= m < net.size && same_clique(net, i, m) implies #[trigger] after[m]
        >= c by {
        if m != x {
            assert(net.linked(x, m)) by {
                if x != i {
                    assert(net.linked(i, x));
                    assert(net.linked(x, i));
                }
            }
        }
    }
    assert forall|k: int|
        0 <= k < visits + 1 && same_clique(net, i, #[trigger] order[k]) implies after[order[k]]
        == c by {
        if k < visits {
            assert(!same_clique(net, i, order[k]));
        }
    }
    c
}

proof fn lemma_later_member_visit(
    net: Network,
    order: Seq<int>,
    visits: nat,
    i: int,
    c: int,
    a: int,
    b: int,
)
    requires
        is_union_of_cliques(net),
        is_listing(order, net.size as int),
        visits < order.len(),
        same_clique(net, i, order[visits as int]),
        agreed(net, order, net.visited(own_labels(net.size), order, visits), visits, i, c, a, b),
    ensures
        agreed(
            net,
            order,
            net.visited(own_labels(net.size), order, visits + 1),
            visits + 1,
            i,
            c,
            a,
            b,
        ),
{
    let own = own_labels(net.size);
    let labels = net.visited(own, order, visits);
    let x = order[visits as int];
    let after = net.visited(own, order, visits + 1);
    lemma_visited_len(net, own, order, visits);
    assert forall|m: int| m != x && #[trigger] same_clique(net, i, m) implies net.linked(x, m) by {
        if x != i {
            assert(net.linked(i, x));
            assert(net.linked(x, i));
        }
    }
    assert forall|m: int| #[trigger] net.linked(x, m) implies same_clique(net, i, m) by {
        if x != i {
            assert(net.linked(i, x));
        }
    }
    let helper = if a != x {
        a
    } else {
        b
    };
    assert(net.linked(x, helper) && labels[helper] == c);
    lemma_pull_at_least_one_link(net, labels, x, helper);
    assert forall|j: int| #[trigger] net.linked(x, j) implies {
        ||| net.pull(labels, x, labels[j]) < net.pull(labels, x, c)
        ||| net.pull(labels, x, labels[j]) == net.pull(labels, x, c) && c <= labels[j]
    } by {
        assert(same_clique(net, i, j));
        if labels[j] != c {
            lemma_own_label_unless_agreed(net, order, visits, i, c, a, b, j);
            assert forall|m: int| #[trigger] net.linked(x, m) && m != j implies labels[m]
                != labels[j] by {
                assert(same_clique(net, i, m));
                if labels[m] != c {
                    lemma_own_label_unless_agreed(net, order, visits, i, c, a, b, m);
                }
            }
            lemma_pull_of_own_label(net, labels, x, j);
        }
    }
    assert(net.is_heaviest(labels, x, c));
    lemma_adopted_is(net, labels, x, c);
    assert(after == labels.update(x, c));
    assert forall|k: int|
        0 <= k < visits + 1 && same_clique(net, i, #[trigger] order[k]) implies after[order[k]]
        == c by {
        if k < visits {
            assert(labels[order[k]] == c);
        }
    }
    assert forall|m: int| 0 <= m < net.size && same_clique(net, i, m) implies #[trigger] after[m]
        >= c by {
        if m != x {
            assert(after[m] == labels[m]);
        }
    }
}

proof fn lemma_own_label_unless_agreed(
    net: Network,
    order: Seq<int>,
    visits: nat,
    i: int,
    c: int,
    a: int,
    b: int,
    m: int,
)
    requires
        net.well_formed(),
        is_listing(order, net.size as int),
        visits <= order.len(),
        0 <= m < net.size,
        same_clique(net, i, m),
        agreed(net, order, net.visited(own_labels(net.size), order, visits), visits, i, c, a, b),
        net.visited(own_labels(net.size), order, visits)[m] != c,
    ensures
        net.visited(own_labels(net.size), order, visits)[m] == m,
{
    lemma_own_or_visited(net, order, visits, m);
    if exists|k: int| 0 <= k < visits && #[trigger] order[k] == m {
        let k = choose|k: int| 0 <= k < visits && #[trigger] order[k] == m;
        assert(same_clique(net, i, order[k]));
    }
}

proof fn lemma_outside_visit(
    net: Network,
    order: Seq<int>,
    visits: nat,
    i: int,
    c: int,
    a: int,
    b: int,
)
    requires
        net.well_formed(),
        is_listing(order, net.size as int),
        visits < order.len(),
        !same_clique(net, i, order[visits as int]),
        agreed(net, order, net.visited(own_labels(net.size), order, visits), visits, i, c, a, b),
    ensures
        agreed(
            net,
            order,
            net.visited(own_labels(net.size), order, visits + 1),
            visits + 1,
            i,
            c,
            a,
            b,
        ),
{
    let own = own_labels(net.size);
    let labels = net.visited(own, order, visits);
    let x = order[visits as int];
    let after = net.visited(own, order, visits + 1);
    lemma_visited_len(net, own, order, visits);
    assert(after == labels.update(x, net.adopted(labels, x)));
    assert forall|k: int|
        0 <= k < visits + 1 && same_clique(net, i, #[trigger] order[k]) implies after[order[k]]
        == c by {
        assert(k < visits);
        assert(labels[order[k]] == c);
    }
    assert forall|m: int| 0 <= m < net.size && same_clique(net, i, m) implies #[trigger] after[m]
        >= c by {
        assert(after[m] == labels[m]);
    }
}

/// Part-way through the first sweep, a clique is untouched or has agreed.
proof fn lemma_agreement(net: Network, order: Seq<int>, visits: nat, i: int)
    requires
        is_union_of_cliques(net),
        is_listing(order, net.size as int),
        visits <= order.len(),
        net.has_neighbor(i),
    ensures
        untouched(net, order, visits, i) || exists|c: int, a: int, b: int| #[trigger]
            agreed(net, order, net.visited(own_labels(net.size), order, visits), visits, i, c, a, b),
    decreases visits,
{
    if visits > 0 {
        let earlier = (visits - 1) as nat;
        lemma_agreement(net, order, earlier, i);
        let x = order[visits - 1];
        if untouched(net, order, earlier, i) {
            if same_clique(net, i, x) {
                let c = lemma_first_member_visit(net, order, earlier, i);
            } else {
                assert(untouched(net, order, visits, i));
            }
        } else {
            let (c, a, b) = choose|c: int, a: int, b: int| #[trigger]
                agreed(
                    net,
                    order,
                    net.visited(own_labels(net.size), order, earlier),
                    earlier,
                    i,
                    c,
                    a,
                    b,
                );
            if same_clique(net, i, x) {
                lemma_later_member_visit(net, order, earlier, i, c, a, b);
            } else {
                lemma_outside_visit(net, order, earlier, i, c, a, b);
            }
        }
    }
}

/// One sweep, in whatever order, gives all members of a clique the same label.
pub proof fn law_one_sweep_unites_cliques(
    net: Network,
    order: Seq<int>,
    i: int,
    j: int,
)
    requires
        is_union_of_cliques(net),
        is_listing(order, net.size as int),
        net.linked(i, j),
    ensures
        net.swept(own_labels(net.size), order)[i] == net.swept(own_labels(net.size), order)[j],
{
    let labels = net.swept(own_labels(net.size), order);
    assert(net.has_neighbor(i));
    lemma_agreement(net, order, order.len(), i);
    assert(order.contains(i));
    assert(order.contains(j));
    let ki = choose|k: int| 0 <= k < order.len() && order[k] == i;
    let kj = choose|k: int| 0 <= k < order.len() && order[k] == j;
    assert(same_clique(net, i, order[ki]));
    assert(same_clique(net, i, order[kj]));
    let (c, a, b) = choose|c: int, a: int, b: int| #[trigger]
        agreed(net, order, labels, order.len(), i, c, a, b);
    assert(labels[order[ki]] == c);
    assert(labels[order[kj]] == c);
}

proof fn lemma_united_is_settled(net: Network, labels: Seq<int>)
    requires
        net.well_formed(),
        labels.len() == net.size,
        forall|i: int, j: int| #[trigger] net.linked(i, j) ==> labels[i] == labels[j],
    ensures
        net.settled(labels),
{
    assert forall|i: int| 0 <= i < net.size implies #[trigger] net.adopted(labels, i)
        == labels[i] by {
        if net.has_neighbor(i) {
            let j = choose|j: int| net.linked(i, j);
            assert(net.linked(i, j) && labels[j] == labels[i]);
            assert(net.is_heaviest(labels, i, labels[i]));
            lemma_adopted_is(net, labels, i, labels[i]);
        }
    }
}

/// On a union of disjoint cliques, and with at least one sweep, two nodes share
/// a community if and only if they belong to the same clique. The cliques are
/// the connected components.
pub proof fn law_cliques_are_communities(
    net: Network,
    ids: Seq<Seq<char>>,
    limit: nat,
    i: int,
    j: int,
)
    requires
        is_union_of_cliques(net),
        ids.len() == net.size,
        limit >= 1,
        0 <= i < net.size,
        0 <= j < net.size,
    ensures
        net.communities(ids, limit)[i] == net.communities(ids, limit)[j] <==> same_clique(
            net,
            i,
            j,
        ),
        connected(net, i, j) <==> same_clique(net, i, j),
{
    let own = own_labels(net.size);
    let order = sweep_order(places(ids));
    law_sweep_visits_each_once(places(ids));
    let next = net.swept(own, order);
    lemma_visited_len(net, own, order, order.len());
    assert forall|a: int, b: int| #[trigger] net.linked(a, b) implies next[a] == next[b] by {
        law_one_sweep_unites_cliques(net, order, a, b);
    }
    lemma_united_is_settled(net, next);
    assert(net.communities(ids, limit) == next) by {
        law_settled_labels_stay(net, next, order);
        assert(net.propagated(ids, next, (limit - 1) as nat) == next);
    }
    if next[i] == next[j] {
        law_community_is_connected(net, ids, limit, i, j);
    }
    if connected(net, i, j) {
        let path = choose|path: Seq<int>| is_path(net, path, i, j);
        lemma_path_stays_in_clique(net, path, i, j);
    }
    if same_clique(net, i, j) {
        if i == j {
            assert(is_path(net, seq![i], i, j));
        } else {
            assert(is_path(net, seq![i, j], i, j));
        }
    }
}

} // verus!
