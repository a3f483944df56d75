//! What label propagation keeps and reaches on every network.

use vstd::prelude::*;
use crate::network::{law_heaviest_unique, own_labels, places, Network};
use crate::sweep::{is_listing, law_sweep_visits_each_once, sweep_order};

verus! {

/// `path` runs from `i` to `j` along links.
pub open spec fn is_path(net: Network, path: Seq<int>, i: int, j: int) -> bool {
    &&& path.len() > 0
    &&& path[0] == i
    &&& path.last() == j
    &&& forall|k: int| 0 <= k < path.len() - 1 ==> net.linked(#[trigger] path[k], path[k + 1])
}

/// The two nodes lie in the same connected component.
pub open spec fn connected(net: Network, i: int, j: int) -> bool {
    exists|path: Seq<int>| is_path(net, path, i, j)
}

/// Every node carries the number of a node of its own component.
pub open spec fn labels_within_components(net: Network, labels: Seq<int>) -> bool {
    &&& labels.len() == net.size
    &&& forall|i: int|
        0 <= i < net.size ==> 0 <= #[trigger] labels[i] < net.size && connected(net, i, labels[i])
}

proof fn lemma_connected_self(net: Network, i: int)
    ensures
        connected(net, i, i),
{
    assert(is_path(net, seq![i], i, i));
}

proof fn lemma_connected_step(net: Network, i: int, j: int, l: int)
    requires
        net.linked(i, j),
        connected(net, j, l),
    ensures
        connected(net, i, l),
{
    let path = choose|path: Seq<int>| is_path(net, path, j, l);
    let longer = seq![i] + path;
    assert forall|k: int| 0 <= k < longer.len() - 1 implies net.linked(
        #[trigger] longer[k],
        longer[k + 1],
    ) by {
        if k > 0 {
            assert(longer[k] == path[k - 1]);
            assert(longer[k + 1] == path[k]);
            assert(net.linked(path[k - 1], path[k - 1 + 1]));
        }
    }
    assert(is_path(net, longer, i, l));
}

/// Lying in the same component is symmetric.
pub proof fn law_connected_symmetric(net: Network, i: int, j: int)
    requires
        net.well_formed(),
        connected(net, i, j),
    ensures
        connected(net, j, i),
{
    let path = choose|path: Seq<int>| is_path(net, path, i, j);
    let back = path.reverse();
    assert forall|k: int| 0 <= k < back.len() - 1 implies net.linked(
        #[trigger] back[k],
        back[k + 1],
    ) by {
        let m = path.len() - 2 - k;
        assert(net.linked(path[m], path[m + 1]));
    }
    assert(is_path(net, back, j, i));
}

/// Lying in the same component is transitive.
pub proof fn law_connected_transitive(net: Network, i: int, j: int, l: int)
    requires
        connected(net, i, j),
        connected(net, j, l),
    ensures
        connected(net, i, l),
{
    let a = choose|path: Seq<int>| is_path(net, path, i, j);
    let b = choose|path: Seq<int>| is_path(net, path, j, l);
    let joined = a + b.drop_first();
    assert forall|k: int| 0 <= k < joined.len() - 1 implies net.linked(
        #[trigger] joined[k],
        joined[k + 1],
    ) by {
        if k < a.len() - 1 {
            assert(net.linked(a[k], a[k + 1]));
        } else {
            let m = k - (a.len() - 1);
            assert(joined[k] == b[m]);
            assert(joined[k + 1] == b[m + 1]);
            assert(net.linked(b[m], b[m + 1]));
        }
    }
    if b.len() == 1 {
        assert(joined =~= a);
    }
    assert(is_path(net, joined, i, l));
}

/// Among the neighbors below `bound`, one carries a label that no other beats.
proof fn lemma_heaviest_below(net: Network, labels: Seq<int>, i: int, bound: int) -> (best: int)
    requires
        exists|j: int| #[trigger] net.linked(i, j) && 0 <= j < bound,
    ensures
        net.linked(i, best),
        0 <= best < bound,
        forall|j: int| #[trigger]
            net.linked(i, j) && 0 <= j < bound ==> {
                ||| net.pull(labels, i, labels[j]) < net.pull(labels, i, labels[best])
                ||| net.pull(labels, i, labels[j]) == net.pull(labels, i, labels[best])
                    && labels[best] <= labels[j]
            },
    decreases bound,
{
    let last = bound - 1;
    if exists|j: int| #[trigger] net.linked(i, j) && 0 <= j < last {
        let prior = lemma_heaviest_below(net, labels, i, last);
        if net.linked(i, last) && (net.pull(labels, i, labels[last]) > net.pull(
            labels,
            i,
            labels[prior],
        ) || (net.pull(labels, i, labels[last]) == net.pull(labels, i, labels[prior])
            && labels[last] < labels[prior])) {
            last
        } else {
            prior
        }
    } else {
        last
    }
}

/// A node with neighbors always has a heaviest label to adopt.
pub proof fn law_heaviest_exists(net: Network, labels: Seq<int>, i: int)
    requires
        net.well_formed(),
        net.has_neighbor(i),
    ensures
        net.is_heaviest(labels, i, net.adopted(labels, i)),
        exists|j: int| #[trigger]
            net.linked(i, j) && 0 <= j < net.size && labels[j] == net.adopted(labels, i),
{
    let j = choose|j: int| net.linked(i, j);
    assert(net.linked(i, j) && 0 <= j < net.size);
    let best = lemma_heaviest_below(net, labels, i, net.size as int);
    assert(net.linked(i, best) && labels[best] == labels[best]);
    assert(net.is_heaviest(labels, i, labels[best]));
    law_heaviest_unique(net, labels, i, labels[best], net.adopted(labels, i));
}

proof fn lemma_visit_within_components(net: Network, labels: Seq<int>, i: int)
    requires
        net.well_formed(),
        labels_within_components(net, labels),
        0 <= i < net.size,
    ensures
        labels_within_components(net, labels.update(i, net.adopted(labels, i))),
{
    let after = labels.update(i, net.adopted(labels, i));
    assert(0 <= after[i] < net.size && connected(net, i, after[i])) by {
        if net.has_neighbor(i) {
            law_heaviest_exists(net, labels, i);
            let j = choose|j: int| #[trigger]
                net.linked(i, j) && 0 <= j < net.size && labels[j] == net.adopted(labels, i);
            assert(0 <= labels[j] < net.size);
            lemma_connected_step(net, i, j, labels[j]);
        } else {
            assert(0 <= labels[i] < net.size);
        }
    }
    assert forall|k: int| 0 <= k < net.size implies 0 <= #[trigger] after[k] < net.size
        && connected(net, k, after[k]) by {
        if k != i {
            assert(after[k] == labels[k]);
        }
    }
}

pub proof fn lemma_visits_within_components(
    net: Network,
    labels: Seq<int>,
    order: Seq<int>,
    visits: nat,
)
    requires
        net.well_formed(),
        labels_within_components(net, labels),
        is_listing(order, net.size as int),
        visits <= order.len(),
    ensures
        labels_within_components(net, net.visited(labels, order, visits)),
    decreases visits,
{
    if visits > 0 {
        lemma_visits_within_components(net, labels, order, (visits - 1) as nat);
        lemma_visit_within_components(
            net,
            net.visited(labels, order, (visits - 1) as nat),
            order[visits - 1],
        );
    }
}

proof fn lemma_propagated_within_components(
    net: Network,
    ids: Seq<Seq<char>>,
    labels: Seq<int>,
    limit: nat,
)
    requires
        net.well_formed(),
        ids.len() == net.size,
        labels_within_components(net, labels),
    ensures
        labels_within_components(net, net.propagated(ids, labels, limit)),
    decreases limit,
{
    if limit > 0 {
        let order = sweep_order(places(ids));
        law_sweep_visits_each_once(places(ids));
        let next = net.swept(labels, order);
        lemma_visits_within_components(net, labels, order, order.len());
        if next != labels {
            lemma_propagated_within_components(net, ids, next, (limit - 1) as nat);
        }
    }
}

/// Every community label is the number of a node of the same component, after
/// any number of sweeps.
pub proof fn law_labels_stay_in_component(net: Network, ids: Seq<Seq<char>>, limit: nat)
    requires
        net.well_formed(),
        ids.len() == net.size,
    ensures
        labels_within_components(net, net.communities(ids, limit)),
{
    let own = own_labels(net.size);
    assert forall|i: int| 0 <= i < net.size implies 0 <= #[trigger] own[i] < net.size && connected(
        net,
        i,
        own[i],
    ) by {
        lemma_connected_self(net, i);
    }
    lemma_propagated_within_components(net, ids, own, limit);
}

/// Two nodes of one community lie in one connected component.
pub proof fn law_community_is_connected(
    net: Network,
    ids: Seq<Seq<char>>,
    limit: nat,
    i: int,
    j: int,
)
    requires
        net.well_formed(),
        ids.len() == net.size,
        0 <= i < net.size,
        0 <= j < net.size,
        net.communities(ids, limit)[i] == net.communities(ids, limit)[j],
    ensures
        connected(net, i, j),
{
    law_labels_stay_in_component(net, ids, limit);
    let label = net.communities(ids, limit)[i];
    assert(connected(net, i, net.communities(ids, limit)[i]));
    assert(connected(net, j, net.communities(ids, limit)[j]));
    law_connected_symmetric(net, j, label);
    law_connected_transitive(net, i, label, j);
}

pub proof fn lemma_visits_keep_isolated(
    net: Network,
    labels: Seq<int>,
    order: Seq<int>,
    visits: nat,
    i: int,
)
    requires
        !net.has_neighbor(i),
        is_listing(order, labels.len() as int),
        0 <= i < labels.len(),
        visits <= order.len(),
    ensures
        net.visited(labels, order, visits).len() == labels.len(),
        net.visited(labels, order, visits)[i] == labels[i],
    decreases visits,
{
    if visits > 0 {
        lemma_visits_keep_isolated(net, labels, order, (visits - 1) as nat, i);
    }
}

proof fn lemma_propagated_keeps_isolated(
    net: Network,
    ids: Seq<Seq<char>>,
    labels: Seq<int>,
    limit: nat,
    i: int,
)
    requires
        !net.has_neighbor(i),
        ids.len() == labels.len(),
        0 <= i < labels.len(),
    ensures
        net.propagated(ids, labels, limit)[i] == labels[i],
    decreases limit,
{
    if limit > 0 {
        let order = sweep_order(places(ids));
        law_sweep_visits_each_once(places(ids));
        lemma_visits_keep_isolated(net, labels, order, order.len(), i);
        let next = net.swept(labels, order);
        if next != labels {
            lemma_propagated_keeps_isolated(net, ids, next, (limit - 1) as nat, i);
        }
    }
}

/// A node with no neighbors keeps its own label.
pub proof fn law_isolated_node_keeps_label(
    net: Network,
    ids: Seq<Seq<char>>,
    limit: nat,
    i: int,
)
    requires
        ids.len() == net.size,
        0 <= i < net.size,
        !net.has_neighbor(i),
    ensures
        net.communities(ids, limit)[i] == i,
{
    lemma_propagated_keeps_isolated(net, ids, own_labels(net.size), limit, i);
}

pub proof fn lemma_visited_len(net: Network, labels: Seq<int>, order: Seq<int>, visits: nat)
    requires
        is_listing(order, labels.len() as int),
        visits <= order.len(),
    ensures
        net.visited(labels, order, visits).len() == labels.len(),
    decreases visits,
{
    if visits > 0 {
        lemma_visited_len(net, labels, order, (visits - 1) as nat);
    }
}

/// Visits leave alone the nodes that come later in the order.
pub proof fn lemma_unvisited_unchanged(
    net: Network,
    labels: Seq<int>,
    order: Seq<int>,
    visits: nat,
    k: int,
)
    requires
        is_listing(order, labels.len() as int),
        visits <= k < order.len(),
    ensures
        net.visited(labels, order, visits)[order[k]] == labels[order[k]],
    decreases visits,
{
    if visits > 0 {
        lemma_unvisited_unchanged(net, labels, order, (visits - 1) as nat, k);
        lemma_visited_len(net, labels, order, (visits - 1) as nat);
        assert(order[visits - 1] != order[k]);
    }
}

/// Once visited, a node keeps its label for the rest of the sweep.
pub proof fn lemma_visited_is_final(
    net: Network,
    labels: Seq<int>,
    order: Seq<int>,
    early: nat,
    late: nat,
    k: int,
)
    requires
        is_listing(order, labels.len() as int),
        0 <= k < early <= late <= order.len(),
    ensures
        net.visited(labels, order, late)[order[k]] == net.visited(labels, order, early)[order[k]],
    decreases late,
{
    if early < late {
        lemma_visited_is_final(net, labels, order, early, (late - 1) as nat, k);
        lemma_visited_len(net, labels, order, (late - 1) as nat);
        assert(order[late - 1] != order[k]);
    }
}

proof fn lemma_idle_prefix(net: Network, labels: Seq<int>, order: Seq<int>, visits: nat)
    requires
        is_listing(order, labels.len() as int),
        net.swept(labels, order) == labels,
        visits <= order.len(),
    ensures
        net.visited(labels, order, visits) == labels,
    decreases visits,
{
    if visits > 0 {
        lemma_idle_prefix(net, labels, order, (visits - 1) as nat);
        let node = order[visits - 1];
        lemma_visited_is_final(net, labels, order, visits, order.len(), visits - 1);
        assert(net.visited(labels, order, visits)[node] == net.adopted(labels, node));
        assert(net.visited(labels, order, visits) =~= labels);
    }
}

/// A full sweep that changes no label shows that no visit would change one.
pub proof fn law_idle_sweep_means_settled(net: Network, labels: Seq<int>, order: Seq<int>)
    requires
        labels.len() == net.size,
        is_listing(order, net.size as int),
        net.swept(labels, order) == labels,
    ensures
        net.settled(labels),
{
    assert forall|i: int| 0 <= i < net.size implies #[trigger] net.adopted(labels, i)
        == labels[i] by {
        assert(order.contains(i));
        let k = choose|k: int| 0 <= k < order.len() && order[k] == i;
        lemma_idle_prefix(net, labels, order, k as nat);
        lemma_idle_prefix(net, labels, order, (k + 1) as nat);
        assert(net.visited(labels, order, (k + 1) as nat) == labels.update(
            i,
            net.adopted(labels, i),
        ));
    }
}

proof fn lemma_settled_prefix(net: Network, labels: Seq<int>, order: Seq<int>, visits: nat)
    requires
        labels.len() == net.size,
        is_listing(order, net.size as int),
        net.settled(labels),
        visits <= order.len(),
    ensures
        net.visited(labels, order, visits) == labels,
    decreases visits,
{
    if visits > 0 {
        lemma_settled_prefix(net, labels, order, (visits - 1) as nat);
        let node = order[visits - 1];
        assert(net.adopted(labels, node) == labels[node]);
        assert(labels.update(node, labels[node]) =~= labels);
    }
}

/// Settled labels survive every sweep, in whatever order it visits the nodes.
pub proof fn law_settled_labels_stay(net: Network, labels: Seq<int>, order: Seq<int>)
    requires
        labels.len() == net.size,
        is_listing(order, net.size as int),
        net.settled(labels),
    ensures
        net.swept(labels, order) == labels,
{
    lemma_settled_prefix(net, labels, order, order.len());
}

} // verus!
