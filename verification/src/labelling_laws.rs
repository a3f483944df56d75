//! Label propagation, step by step.

use vstd::prelude::*;
use vstd::utf8::encode_utf8;
use crate::clique_laws::{is_union_of_cliques, law_cliques_are_communities};
use crate::graph_laws::{law_network_undirected, lemma_ids};
use crate::hash::{fnv1a_of, place_of};
use crate::model::{GraphView, RelationshipView};
use crate::network::{own_labels, places, Network};
use crate::network_laws::law_heaviest_exists;
use crate::propagation::{ends, rows_list, Link};
use crate::settling_laws::law_one_more_sweep;
use crate::storage_laws::{law_no_links_without_relationships, law_relationship_links_its_ends};
use crate::sums::{lemma_sum_same, sum};
use crate::sweep::{law_sweep_visits_each_once, sweep_order, visiting_order};

verus! {

/// Sums are taken term by term.
pub proof fn law_sum_term_by_term(f: spec_fn(int) -> int, n: int)
    ensures
        sum(f, 0) == 0,
        n >= 0 ==> sum(f, n + 1) == sum(f, n) + f(n),
{
}

/// The rows of a network list its links: each link of a node once, with its
/// weight, and nothing else.
pub proof fn law_rows_list_links(rows: Seq<Vec<Link>>, net: Network, i: int, j: int)
    requires
        rows_list(rows, net),
        0 <= i < rows.len(),
    ensures
        rows.len() == net.size,
        net.links.contains_key((i, j)) <==> exists|e: int|
            0 <= e < rows[i]@.len() && #[trigger] rows[i]@[e].node == j,
        forall|e: int|
            0 <= e < rows[i]@.len() && #[trigger] rows[i]@[e].node == j ==> rows[i]@[e].weight
                == net.links[(i, j)],
        forall|d: int, e: int|
            0 <= d < e < rows[i]@.len() ==> #[trigger] rows[i]@[d].node != #[trigger] rows[i]@[e].node,
{
    let row = rows[i]@;
    assert(net.linked(i, j) == net.links.contains_key((i, j)));
    if net.linked(i, j) {
        assert(ends(row).contains(j));
        let e = choose|e: int| 0 <= e < ends(row).len() && ends(row)[e] == j;
        assert(row[e].node == j);
    }
    assert forall|d: int, e: int| 0 <= d < e < row.len() implies #[trigger] row[d].node
        != #[trigger] row[e].node by {
        assert(ends(row)[d] != ends(row)[e]);
    }
}

/// A visited node with neighbors joins the label of one of them, and no other
/// label of a neighbor outweighs it: each has less weight towards the node, or
/// the same weight and no smaller number.
pub proof fn law_visited_node_joins_heaviest(net: Network, labels: Seq<int>, i: int, nb: int)
    requires
        net.well_formed(),
        net.links.contains_key((i, nb)),
    ensures
        ({
            let label = net.adopted(labels, i);
            let weight_towards = |l: int|
                sum(
                    |j: int|
                        if net.links.contains_key((i, j)) && labels[j] == l {
                            net.links[(i, j)]
                        } else {
                            0
                        },
                    net.size as int,
                );
            &&& exists|j: int| #[trigger] net.links.contains_key((i, j)) && labels[j] == label
            &&& weight_towards(labels[nb]) <= weight_towards(label)
            &&& weight_towards(labels[nb]) == weight_towards(label) ==> label <= labels[nb]
        }),
{
    let label = net.adopted(labels, i);
    let weight_towards = |l: int|
        sum(
            |j: int|
                if net.links.contains_key((i, j)) && labels[j] == l {
                    net.links[(i, j)]
                } else {
                    0
                },
            net.size as int,
        );
    assert forall|l: int| #[trigger] weight_towards(l) == net.pull(labels, i, l) by {
        let f = |j: int|
            if net.links.contains_key((i, j)) && labels[j] == l {
                net.links[(i, j)]
            } else {
                0
            };
        assert forall|j: int| 0 <= j < net.size implies #[trigger] f(j) == net.pull_term(
            labels,
            i,
            l,
        )(j) by {
            assert(net.linked(i, j) == net.links.contains_key((i, j)));
        }
        lemma_sum_same(f, net.pull_term(labels, i, l), net.size as int);
    }
    assert(net.linked(i, nb));
    assert(net.has_neighbor(i));
    law_heaviest_exists(net, labels, i);
    let j = choose|j: int| #[trigger] net.linked(i, j) && 0 <= j < net.size && labels[j] == label;
    assert(net.links.contains_key((i, j)));
    assert(weight_towards(labels[nb]) == net.pull(labels, i, labels[nb]));
    assert(weight_towards(label) == net.pull(labels, i, label));
}

/// A visited node without neighbors keeps its label.
pub proof fn law_visited_node_without_neighbors(net: Network, labels: Seq<int>, i: int)
    requires
        forall|j: int| !#[trigger] net.links.contains_key((i, j)),
    ensures
        net.adopted(labels, i) == labels[i],
{
    assert forall|j: int| !net.linked(i, j) by {
        assert(!net.links.contains_key((i, j)));
    }
}

/// A sweep visits one node after the other: each visit gives its node the label
/// that it adopts, as the labels then stand, and no other node a new one.
pub proof fn law_visits_go_one_by_one(
    net: Network,
    labels: Seq<int>,
    order: Seq<int>,
    k: nat,
    i: int,
)
    requires
        k < order.len(),
        0 <= order[k as int] < net.visited(labels, order, k).len(),
    ensures
        net.visited(labels, order, 0) == labels,
        net.visited(labels, order, k + 1).len() == net.visited(labels, order, k).len(),
        net.visited(labels, order, k + 1)[order[k as int]] == net.adopted(
            net.visited(labels, order, k),
            order[k as int],
        ),
        0 <= i < net.visited(labels, order, k).len() && i != order[k as int] ==> net.visited(
            labels,
            order,
            k + 1,
        )[i] == net.visited(
            labels,
            order,
            k,
        )[i],
        net.swept(labels, order) == net.visited(labels, order, order.len()),
{
    let before = net.visited(labels, order, k);
    let node = order[k as int];
    assert(net.visited(labels, order, k + 1) == before.update(node, net.adopted(before, node)));
}

/// Hashing goes byte by byte: exclusive or, and multiplication by a prime. The
/// hash of a text is that of its bytes.
pub proof fn law_hash_byte_by_byte(bytes: Seq<u8>, byte: u8, id: Seq<char>)
    ensures
        place_of(id) == fnv1a_of(encode_utf8(id)),
        fnv1a_of(Seq::empty()) == 0xcbf2_9ce4_8422_2325u64,
        fnv1a_of(bytes.push(byte)) == (fnv1a_of(bytes) ^ (byte as u64)).wrapping_mul(
            0x0000_0100_0000_01b3u64,
        ),
{
    assert(bytes.push(byte).drop_last() =~= bytes);
    assert(bytes.push(byte).last() == byte);
}

/// A sweep visits every node once, in the order of the hashes of the
/// identifiers, and nodes of equal hashes in the order of their numbers.
pub proof fn law_sweep_goes_by_hash(ids: Seq<Seq<char>>, p: int, q: int)
    requires
        0 <= p < q < ids.len(),
    ensures
        ({
            let order = sweep_order(places(ids));
            let a = fnv1a_of(encode_utf8(ids[order[p]]));
            let b = fnv1a_of(encode_utf8(ids[order[q]]));
            &&& order.len() == ids.len()
            &&& 0 <= order[p] < ids.len()
            &&& 0 <= order[q] < ids.len()
            &&& order[p] != order[q]
            &&& a < b || (a == b && order[p] < order[q])
        }),
{
    let order = sweep_order(places(ids));
    law_sweep_visits_each_once(places(ids));
    assert(order[p] != order[q]);
    assert(visiting_order(places(ids))(order[p], order[q]));
}

/// The only relationship of a graph, between two of its entities and of whatever
/// weight that is not negative, unites the two in one community. Every other
/// entity stays alone.
pub proof fn law_only_relationship_unites_its_ends(
    g: GraphView,
    edge: RelationshipView,
    limit: nat,
    x: Seq<char>,
    y: Seq<char>,
)
    requires
        g.finite(),
        forall|k: Seq<char>| #[trigger] g.adj.contains_key(k) ==> g.adj[k].len() == 0,
        g.entities.contains_key(edge.source),
        g.entities.contains_key(edge.target),
        edge.source != edge.target,
        edge.weight >= 0,
        limit >= 1,
        g.entities.contains_key(x),
        g.entities.contains_key(y),
    ensures
        ({
            let h = g.with_relationship(edge).detected(limit);
            h.entities[x].community_id == h.entities[y].community_id <==> x == y || (x
                == edge.source && y == edge.target) || (x == edge.target && y == edge.source)
        }),
{
    let h = g.with_relationship(edge);
    let net = h.network();
    let ids = g.ids();
    lemma_ids(g);
    let a = lemma_number_of(g, edge.source);
    let b = lemma_number_of(g, edge.target);
    let i = lemma_number_of(g, x);
    let j = lemma_number_of(g, y);
    law_relationship_links_its_ends(g, edge, a, b);
    assert(net.links[(a, b)] == edge.weight && net.links[(b, a)] == edge.weight) by {
        law_no_links_without_relationships(g, a, b);
        law_no_links_without_relationships(g, b, a);
    }
    assert forall|p: int, q: int| #[trigger] net.linked(p, q) <==> (p == a && q == b) || (p == b
        && q == a) by {
        law_no_links_without_relationships(g, p, q);
        if (p, q) != (a, b) && (p, q) != (b, a) {
            assert(net.links.contains_key((p, q)) == g.network().links.contains_key((p, q)));
        }
    }
    law_network_undirected(h);
    assert(is_union_of_cliques(net));
    law_cliques_are_communities(net, ids, limit, i, j);
    law_detection_goes_sweep_by_sweep(h, limit, i);
    law_detection_goes_sweep_by_sweep(h, limit, j);
}

proof fn lemma_number_of(g: GraphView, id: Seq<char>) -> (i: int)
    requires
        g.finite(),
        g.entities.contains_key(id),
    ensures
        0 <= i < g.ids().len(),
        g.ids()[i] == id,
{
    lemma_ids(g);
    assert(g.ids().contains(id));
    choose|i: int| 0 <= i < g.ids().len() && g.ids()[i] == id
}

/// Detection starts with a label of its own for every entity, and every sweep
/// starts with the labels of the sweep before.
pub proof fn law_detection_goes_sweep_by_sweep(g: GraphView, limit: nat, i: int)
    requires
        g.finite(),
        0 <= i < g.ids().len(),
    ensures
        g.detected(0).entities[g.ids()[i]].community_id == i,
        g.detected(limit).entities[g.ids()[i]].community_id == g.network().communities(
            g.ids(),
            limit,
        )[i],
        g.network().communities(g.ids(), limit + 1) == g.network().swept(
            g.network().communities(g.ids(), limit),
            sweep_order(places(g.ids())),
        ),
{
    let ids = g.ids();
    lemma_ids(g);
    assert(ids.contains(ids[i]));
    assert(ids.index_of(ids[i]) == i);
    assert(g.network().communities(ids, 0) == own_labels(g.network().size));
    law_one_more_sweep(g.network(), ids, own_labels(g.network().size), limit);
}

} // verus!
