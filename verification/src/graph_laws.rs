//! What holds of knowledge graphs: what detection depends on and what it keeps,
//! what it finds, and how communities divide the entities.

use vstd::prelude::*;
use crate::adjacency::{lemma_bulk_bound, lemma_network_push_ignored, lemma_network_well_formed};
use crate::clique_laws::{is_union_of_cliques, law_cliques_are_communities};
use crate::collation::{lemma_ascending_no_duplicates, lemma_in_order};
use crate::edge_laws::law_relationship_added;
use crate::model::{
    joined, joins, network_of, weight_between, EntityView, GraphView, RelationshipView,
};
use crate::modularity_laws::law_modularity_at_least_singletons;
use crate::network::own_labels;
use crate::network_laws::{
    connected, law_community_is_connected, law_isolated_node_keeps_label,
    law_labels_stay_in_component,
};
use crate::partition::lemma_filter_contains;
use crate::settling_laws::{
    enough_sweeps, has_no_negative_weights, has_positive_weights, law_propagation_settles,
    law_unchanged_communities_have_settled,
};
use crate::sums::lemma_zero_is_multiple;

verus! {

/// The weight that a relationship adds between two entities.
spec fn contribution(edge: RelationshipView, a: Seq<char>, b: Seq<char>) -> int {
    if joins(edge, a, b) {
        edge.weight
    } else {
        0
    }
}

proof fn lemma_weight_remove(edges: Seq<RelationshipView>, k: int, a: Seq<char>, b: Seq<char>)
    requires
        0 <= k < edges.len(),
    ensures
        weight_between(edges, a, b) == weight_between(edges.remove(k), a, b) + contribution(
            edges[k],
            a,
            b,
        ),
    decreases edges.len(),
{
    let fewer = edges.remove(k);
    if k == edges.len() - 1 {
        assert(fewer =~= edges.drop_last());
    } else {
        lemma_weight_remove(edges.drop_last(), k, a, b);
        assert(fewer.drop_last() =~= edges.drop_last().remove(k));
        assert(fewer.last() == edges.last());
    }
}

/// The weight between two entities does not depend on the order of the
/// relationships.
pub proof fn law_weight_ignores_order(
    s: Seq<RelationshipView>,
    t: Seq<RelationshipView>,
    a: Seq<char>,
    b: Seq<char>,
)
    requires
        s.to_multiset() == t.to_multiset(),
    ensures
        weight_between(s, a, b) == weight_between(t, a, b),
        joined(s, a, b) == joined(t, a, b),
    decreases s.len(),
{
    broadcast use vstd::seq_lib::group_to_multiset_ensures;

    assert(s.len() == s.to_multiset().len());
    assert(t.len() == t.to_multiset().len());
    if s.len() > 0 {
        let e = s.last();
        assert(s.contains(s[s.len() - 1]));
        assert(s.to_multiset().count(e) > 0);
        assert(t.contains(e));
        let k = choose|k: int| 0 <= k < t.len() && t[k] == e;
        let s2 = s.remove(s.len() - 1);
        let t2 = t.remove(k);
        assert(s2.to_multiset() =~= s.to_multiset().remove(e));
        assert(t2.to_multiset() =~= t.to_multiset().remove(e));
        law_weight_ignores_order(s2, t2, a, b);
        lemma_weight_remove(s, s.len() - 1, a, b);
        lemma_weight_remove(t, k, a, b);
    }
    if joined(s, a, b) {
        let i = choose|i: int| 0 <= i < s.len() && joins(#[trigger] s[i], a, b);
        assert(s.contains(s[i]));
        assert(s.to_multiset().count(s[i]) > 0);
        assert(t.contains(s[i]));
        let j = choose|j: int| 0 <= j < t.len() && t[j] == s[i];
        assert(joins(t[j], a, b));
    }
    if joined(t, a, b) {
        let i = choose|i: int| 0 <= i < t.len() && joins(#[trigger] t[i], a, b);
        assert(t.contains(t[i]));
        assert(t.to_multiset().count(t[i]) > 0);
        assert(s.contains(t[i]));
        let j = choose|j: int| 0 <= j < s.len() && s[j] == t[i];
        assert(joins(s[j], a, b));
    }
}

/// The network of a graph depends on the identifiers of the entities and on the
/// relationships alone. It is the same for all orders in which these were
/// stored, and whatever is said of the entities.
pub proof fn law_network_depends_on_structure(g: GraphView, h: GraphView)
    requires
        g.entities.dom() == h.entities.dom(),
        g.edges().to_multiset() == h.edges().to_multiset(),
    ensures
        g.network() == h.network(),
{
    let ids = g.ids();
    let a = g.network();
    let b = h.network();
    assert forall|p: (int, int)| #[trigger]
        a.links.dom().contains(p) == b.links.dom().contains(p) && (a.links.dom().contains(p)
            ==> a.links[p] == b.links[p]) by {
        law_weight_ignores_order(g.edges(), h.edges(), ids[p.0], ids[p.1]);
    }
    assert(a.links.dom() =~= b.links.dom());
    assert(a.links =~= b.links);
}

/// Detection is reproducible: two graphs with the same identifiers and the same
/// relationships, stored in whatever order, get the same communities.
pub proof fn law_detection_depends_on_structure(
    g: GraphView,
    h: GraphView,
    limit: nat,
    id: Seq<char>,
)
    requires
        g.entities.dom() == h.entities.dom(),
        g.edges().to_multiset() == h.edges().to_multiset(),
        g.entities.contains_key(id),
    ensures
        g.detected(limit).entities[id].community_id == h.detected(limit).entities[id].community_id,
{
    law_network_depends_on_structure(g, h);
}

/// Two relationships may be stored in either order: the communities are the same.
pub proof fn law_relationship_order_is_immaterial(
    g: GraphView,
    e: RelationshipView,
    f: RelationshipView,
    limit: nat,
    id: Seq<char>,
)
    requires
        g.finite(),
        g.entities.contains_key(id),
    ensures
        g.with_relationship(e).with_relationship(f).detected(limit).entities[id].community_id
            == g.with_relationship(f).with_relationship(e).detected(limit).entities[id].community_id,
{
    law_relationship_added(g, e);
    law_relationship_added(g, f);
    law_relationship_added(g.with_relationship(e), f);
    law_relationship_added(g.with_relationship(f), e);
    let ge = g.edges().to_multiset();
    assert(ge.insert(e).insert(f) =~= ge.insert(f).insert(e));
    law_detection_depends_on_structure(
        g.with_relationship(e).with_relationship(f),
        g.with_relationship(f).with_relationship(e),
        limit,
        id,
    );
}

/// Detection changes nothing but the communities of the entities.
pub proof fn law_detection_keeps_the_rest(g: GraphView, limit: nat, id: Seq<char>)
    ensures
        g.detected(limit).adj == g.adj,
        g.detected(limit).edges() == g.edges(),
        g.detected(limit).entities.dom() == g.entities.dom(),
        g.detected(limit).network() == g.network(),
        g.entities.contains_key(id) ==> (EntityView {
            community_id: g.entities[id].community_id,
            ..g.detected(limit).entities[id]
        }) == g.entities[id],
{
    assert(g.detected(limit).entities.dom() =~= g.entities.dom());
}

/// Detecting the communities once more changes nothing.
pub proof fn law_detection_idempotent(g: GraphView, limit: nat)
    ensures
        g.detected(limit).detected(limit) == g.detected(limit),
{
    let once = g.detected(limit);
    let twice = once.detected(limit);
    assert(once.entities.dom() =~= g.entities.dom());
    assert(once.network() == g.network());
    assert(twice.entities =~= once.entities);
}

/// The network of a graph has no direction: links and weights are the same from
/// both ends, and no entity is linked with itself.
pub proof fn law_network_undirected(g: GraphView)
    ensures
        g.network().well_formed(),
{
    lemma_network_well_formed(g.ids(), g.edges());
}

pub proof fn lemma_ids(g: GraphView)
    requires
        g.finite(),
    ensures
        g.ids().no_duplicates(),
        g.ids().len() == g.entities.len(),
        forall|id: Seq<char>| g.ids().contains(id) <==> g.entities.contains_key(id),
{
    lemma_in_order(g.entities.dom());
    lemma_ascending_no_duplicates(g.ids());
    assert forall|id: Seq<char>| g.ids().contains(id) <==> g.entities.contains_key(id) by {
        assert(g.entities.dom().contains(id) <==> g.ids().contains(id));
    }
}

/// A relationship of an entity with itself, or with an entity that is not
/// known, leaves the network as it is.
pub proof fn law_ignored_relationships(g: GraphView, edge: RelationshipView)
    requires
        g.finite(),
        edge.source == edge.target || !g.entities.contains_key(edge.source)
            || !g.entities.contains_key(edge.target),
    ensures
        g.with_relationship(edge).network() == g.network(),
{
    broadcast use vstd::seq_lib::group_to_multiset_ensures;

    let h = g.with_relationship(edge);
    let pushed = g.edges().push(edge);
    law_relationship_added(g, edge);
    lemma_ids(g);
    lemma_network_push_ignored(g.ids(), g.edges(), edge);
    let a = h.network();
    let b = network_of(g.ids(), pushed);
    assert(pushed.to_multiset() =~= g.edges().to_multiset().insert(edge));
    assert forall|p: (int, int)| #[trigger]
        a.links.dom().contains(p) == b.links.dom().contains(p) && (a.links.dom().contains(p)
            ==> a.links[p] == b.links[p]) by {
        law_weight_ignores_order(h.edges(), pushed, g.ids()[p.0], g.ids()[p.1]);
    }
    assert(a.links.dom() =~= b.links.dom());
    assert(a.links =~= b.links);
}

/// The number of an entity in ascending order of the identifiers.
pub open spec fn number_of(g: GraphView, id: Seq<char>) -> int {
    g.ids().index_of(id)
}

proof fn lemma_number(g: GraphView, id: Seq<char>)
    requires
        g.finite(),
        g.entities.contains_key(id),
    ensures
        0 <= number_of(g, id) < g.ids().len(),
        g.ids()[number_of(g, id)] == id,
{
    lemma_ids(g);
    assert(g.ids().contains(id));
}

/// Entities of one community are connected with one another by relationships.
pub proof fn law_communities_are_connected(
    g: GraphView,
    limit: nat,
    a: Seq<char>,
    b: Seq<char>,
)
    requires
        g.finite(),
        g.entities.contains_key(a),
        g.entities.contains_key(b),
        g.community(a, limit) == g.community(b, limit),
    ensures
        connected(g.network(), number_of(g, a), number_of(g, b)),
{
    lemma_number(g, a);
    lemma_number(g, b);
    law_network_undirected(g);
    law_community_is_connected(g.network(), g.ids(), limit, number_of(g, a), number_of(g, b));
}

/// An entity without neighbors is alone in a community that carries its number.
pub proof fn law_isolated_entity_stays_alone(
    g: GraphView,
    limit: nat,
    id: Seq<char>,
    other: Seq<char>,
)
    requires
        g.finite(),
        g.entities.contains_key(id),
        g.entities.contains_key(other),
        forall|b: Seq<char>|
            g.entities.contains_key(b) && b != id ==> !#[trigger] joined(g.edges(), id, b),
    ensures
        g.community(id, limit) == number_of(g, id),
        g.community(other, limit) == g.community(id, limit) ==> other == id,
{
    let net = g.network();
    let i = number_of(g, id);
    let j = number_of(g, other);
    lemma_number(g, id);
    lemma_number(g, other);
    lemma_ids(g);
    law_network_undirected(g);
    assert forall|k: int| !#[trigger] net.linked(i, k) by {
        if net.linked(i, k) {
            assert(g.ids().contains(g.ids()[k]));
            assert(joined(g.edges(), id, g.ids()[k]));
        }
    }
    assert(!net.has_neighbor(i));
    law_isolated_node_keeps_label(net, g.ids(), limit, i);
    if g.community(other, limit) == g.community(id, limit) {
        law_community_is_connected(net, g.ids(), limit, i, j);
        let path = choose|path: Seq<int>| crate::network_laws::is_path(net, path, i, j);
        if path.len() > 1 {
            assert(net.linked(path[0], path[1]));
        }
    }
}

/// Communities are numbered by their members: the number of a community is that
/// of an entity in the same connected component.
pub proof fn law_community_numbers_are_entities(g: GraphView, limit: nat, id: Seq<char>)
    requires
        g.finite(),
        g.entities.contains_key(id),
    ensures
        0 <= g.community(id, limit) < g.ids().len(),
        connected(g.network(), number_of(g, id), g.community(id, limit)),
{
    lemma_number(g, id);
    law_network_undirected(g);
    law_labels_stay_in_component(g.network(), g.ids(), limit);
    let labels = g.network().communities(g.ids(), limit);
    assert(connected(g.network(), number_of(g, id), labels[number_of(g, id)]));
}

/// The entities fall into groups: any two entities of one group are joined, and
/// no relationship joins entities of different groups. The total weight between
/// two entities is not negative, and within a group it is everywhere the same.
pub open spec fn is_clique_union(
    g: GraphView,
    group: spec_fn(Seq<char>) -> int,
    weight: spec_fn(int) -> int,
) -> bool {
    &&& forall|a: Seq<char>, b: Seq<char>|
        g.entities.contains_key(a) && g.entities.contains_key(b) && a != b ==> (
        #[trigger] joined(g.edges(), a, b) <==> group(a) == group(b))
    &&& forall|a: Seq<char>, b: Seq<char>|
        g.entities.contains_key(a) && g.entities.contains_key(b) && a != b && group(a) == group(b)
            ==> #[trigger] weight_between(g.edges(), a, b) == weight(group(a)) && weight(group(a))
            >= 0
}

/// On a disjoint union of cliques, detection with at least one sweep finds
/// exactly the cliques: two entities share a community if and only if they are
/// of one group, and that is the case if and only if they are connected.
pub proof fn law_detection_finds_cliques(
    g: GraphView,
    group: spec_fn(Seq<char>) -> int,
    weight: spec_fn(int) -> int,
    limit: nat,
    a: Seq<char>,
    b: Seq<char>,
)
    requires
        g.finite(),
        is_clique_union(g, group, weight),
        limit >= 1,
        g.entities.contains_key(a),
        g.entities.contains_key(b),
    ensures
        g.community(a, limit) == g.community(b, limit) <==> group(a) == group(b),
        connected(g.network(), number_of(g, a), number_of(g, b)) <==> group(a) == group(b),
{
    let net = g.network();
    let ids = g.ids();
    lemma_ids(g);
    law_network_undirected(g);
    assert forall|i: int, j: int| #[trigger] net.linked(i, j) <==> (0 <= i < ids.len() && 0 <= j
        < ids.len() && i != j && group(ids[i]) == group(ids[j])) by {
        if 0 <= i < ids.len() && 0 <= j < ids.len() && i != j {
            assert(ids.contains(ids[i]) && ids.contains(ids[j]));
            assert(joined(g.edges(), ids[i], ids[j]) <==> group(ids[i]) == group(ids[j]));
        }
    }
    assert forall|i: int, j: int| #[trigger] net.linked(i, j) implies net.weight(i, j) == weight(
        group(ids[i]),
    ) && net.weight(i, j) >= 0 by {
        assert(ids.contains(ids[i]) && ids.contains(ids[j]));
        assert(weight_between(g.edges(), ids[i], ids[j]) == weight(group(ids[i])));
    }
    assert(is_union_of_cliques(net));
    lemma_number(g, a);
    lemma_number(g, b);
    let i = number_of(g, a);
    let j = number_of(g, b);
    law_cliques_are_communities(net, ids, limit, i, j);
    assert(net.linked(i, j) <==> (i != j && group(ids[i]) == group(ids[j])));
}

/// No relationship has a negative weight.
pub open spec fn has_no_negative_relationships(g: GraphView) -> bool {
    forall|k: int| 0 <= k < g.edges().len() ==> (#[trigger] g.edges()[k]).weight >= 0
}

/// Every relationship has a positive weight.
pub open spec fn has_positive_relationships(g: GraphView) -> bool {
    forall|k: int| 0 <= k < g.edges().len() ==> (#[trigger] g.edges()[k]).weight > 0
}

proof fn lemma_weight_signs(edges: Seq<RelationshipView>, a: Seq<char>, b: Seq<char>)
    requires
        forall|k: int| 0 <= k < edges.len() ==> (#[trigger] edges[k]).weight >= 0,
    ensures
        weight_between(edges, a, b) >= 0,
        (forall|k: int| 0 <= k < edges.len() ==> (#[trigger] edges[k]).weight > 0) && joined(
            edges,
            a,
            b,
        ) ==> weight_between(edges, a, b) > 0,
    decreases edges.len(),
{
    if edges.len() > 0 {
        let fewer = edges.drop_last();
        assert forall|k: int| 0 <= k < fewer.len() implies (#[trigger] fewer[k]).weight >= 0 by {
            assert(fewer[k] == edges[k]);
        }
        lemma_weight_signs(fewer, a, b);
        assert(edges[edges.len() - 1].weight >= 0);
        if (forall|k: int| 0 <= k < edges.len() ==> (#[trigger] edges[k]).weight > 0) && joined(
            edges,
            a,
            b,
        ) {
            assert forall|k: int| 0 <= k < fewer.len() implies (#[trigger] fewer[k]).weight > 0 by {
                assert(fewer[k] == edges[k]);
            }
            let k = choose|k: int| 0 <= k < edges.len() && joins(#[trigger] edges[k], a, b);
            if k < fewer.len() {
                assert(joins(fewer[k], a, b));
            }
            assert(edges[edges.len() - 1].weight > 0);
        }
    }
}

/// The weights of the links have the sign of the weights of the relationships.
pub proof fn lemma_network_signs(g: GraphView)
    ensures
        has_no_negative_relationships(g) ==> has_no_negative_weights(g.network()),
        has_positive_relationships(g) ==> has_positive_weights(g.network()),
{
    let net = g.network();
    let ids = g.ids();
    if has_no_negative_relationships(g) {
        assert forall|i: int, j: int| #[trigger] net.linked(i, j) implies net.weight(i, j)
            >= 0 by {
            lemma_weight_signs(g.edges(), ids[i], ids[j]);
        }
    }
    if has_positive_relationships(g) {
        assert forall|i: int, j: int| #[trigger] net.linked(i, j) implies net.weight(i, j) > 0 by {
            lemma_weight_signs(g.edges(), ids[i], ids[j]);
        }
    }
}

/// What detection stores are the communities of the network.
pub proof fn law_detection_stores_communities(g: GraphView, limit: nat)
    requires
        g.finite(),
    ensures
        g.detected(limit).stored_labels() == g.network().communities(g.ids(), limit),
{
    let once = g.detected(limit);
    let labels = g.network().communities(g.ids(), limit);
    assert(once.entities.dom() =~= g.entities.dom());
    lemma_ids(g);
    law_network_undirected(g);
    law_labels_stay_in_component(g.network(), g.ids(), limit);
    assert forall|i: int| 0 <= i < g.ids().len() implies #[trigger] once.stored_labels()[i]
        == labels[i] by {
        let id = g.ids()[i];
        assert(g.ids().contains(id));
        assert(g.ids().index_of(id) == i);
    }
    assert(once.stored_labels() =~= labels);
}

proof fn lemma_weight_multiple(
    edges: Seq<RelationshipView>,
    unit: int,
    a: Seq<char>,
    b: Seq<char>,
)
    requires
        unit > 0,
        forall|k: int| 0 <= k < edges.len() ==> (#[trigger] edges[k]).weight % unit == 0,
    ensures
        weight_between(edges, a, b) % unit == 0,
    decreases edges.len(),
{
    lemma_zero_is_multiple(unit);
    if edges.len() > 0 {
        let fewer = edges.drop_last();
        assert forall|k: int| 0 <= k < fewer.len() implies (#[trigger] fewer[k]).weight % unit
            == 0 by {
            assert(fewer[k] == edges[k]);
        }
        lemma_weight_multiple(fewer, unit, a, b);
        assert(edges[edges.len() - 1].weight % unit == 0);
        vstd::arithmetic::div_mod::lemma_add_mod_noop(
            weight_between(fewer, a, b),
            edges.last().weight,
            unit,
        );
    }
}

/// Where all relationships have positive weights, detection settles, given
/// enough sweeps. The weights are counted in a unit that divides them all.
pub proof fn law_detection_settles(g: GraphView, unit: int, limit: nat)
    requires
        g.finite(),
        has_positive_relationships(g),
        unit > 0,
        forall|k: int| 0 <= k < g.edges().len() ==> (#[trigger] g.edges()[k]).weight % unit == 0,
        limit >= enough_sweeps(g.network(), unit),
    ensures
        g.network().settled(g.network().communities(g.ids(), limit)),
{
    let net = g.network();
    law_network_undirected(g);
    lemma_network_signs(g);
    assert forall|i: int, j: int| #[trigger] net.linked(i, j) implies net.weight(i, j) % unit
        == 0 by {
        lemma_weight_multiple(g.edges(), unit, g.ids()[i], g.ids()[j]);
    }
    law_propagation_settles(net, unit, g.ids(), limit);
}

/// Where all relationships have the same positive weight, detection settles
/// within a number of sweeps that the numbers of entities and of relationships
/// give.
pub proof fn law_detection_of_equal_weights_settles(g: GraphView, weight: int, limit: nat)
    requires
        g.finite(),
        weight > 0,
        forall|k: int| 0 <= k < g.edges().len() ==> (#[trigger] g.edges()[k]).weight == weight,
        limit >= g.edges().len() * g.entities.len() + g.entities.len() * (g.entities.len() - 1) / 2,
    ensures
        g.network().settled(g.network().communities(g.ids(), limit)),
{
    let net = g.network();
    let n = net.size as int;
    let count = g.edges().len() as int;
    lemma_ids(g);
    lemma_bulk_bound(g.ids(), g.edges(), weight);
    assert forall|k: int| 0 <= k < g.edges().len() implies (#[trigger] g.edges()[k]).weight
        % weight == 0 by {
        vstd::arithmetic::div_mod::lemma_mod_self_0(weight);
    }
    assert(net.bulk() * n <= (count * n) * (2 * weight)) by (nonlinear_arith)
        requires
            net.bulk() <= 2 * weight * count,
            n >= 0,
    ;
    vstd::arithmetic::div_mod::lemma_div_is_ordered(
        net.bulk() * n,
        (count * n) * (2 * weight),
        2 * weight,
    );
    vstd::arithmetic::div_mod::lemma_div_multiples_vanish(count * n, 2 * weight);
    assert((2 * weight) * (count * n) == (count * n) * (2 * weight)) by (nonlinear_arith);
    law_detection_settles(g, weight, limit);
}

/// A partition that one sweep more would leave as it is has settled.
pub proof fn law_unchanged_detection_has_settled(g: GraphView, limit: nat)
    requires
        g.finite(),
        g.detected(limit + 1) == g.detected(limit),
    ensures
        g.network().settled(g.network().communities(g.ids(), limit)),
{
    lemma_ids(g);
    law_network_undirected(g);
    law_detection_stores_communities(g, limit);
    law_detection_stores_communities(g, limit + 1);
    law_unchanged_communities_have_settled(g.network(), g.ids(), limit);
}

/// Once detection has settled, the partition that it stores has at least the
/// modularity of the partition into single entities. Without a sweep it stores
/// that partition.
pub proof fn law_detection_is_no_worse_than_singletons(g: GraphView, limit: nat)
    requires
        g.finite(),
        has_no_negative_relationships(g),
        g.network().settled(g.network().communities(g.ids(), limit)) || limit == 0,
    ensures
        g.network().scaled_modularity(g.detected(limit).stored_labels())
            >= g.network().scaled_modularity(own_labels(g.network().size)),
{
    law_network_undirected(g);
    lemma_network_signs(g);
    law_detection_stores_communities(g, limit);
    law_modularity_at_least_singletons(g.network(), g.ids(), limit);
}

/// A partition that one sweep more would leave as it is has at least the
/// modularity of the partition into single entities.
pub proof fn law_unchanged_detection_is_no_worse_than_singletons(g: GraphView, limit: nat)
    requires
        g.finite(),
        has_no_negative_relationships(g),
        g.detected(limit + 1) == g.detected(limit),
    ensures
        g.network().scaled_modularity(g.detected(limit).stored_labels())
            >= g.network().scaled_modularity(own_labels(g.network().size)),
{
    law_unchanged_detection_has_settled(g, limit);
    law_detection_is_no_worse_than_singletons(g, limit);
}

/// Where all relationships have the same positive weight, detection with enough
/// sweeps for the numbers of entities and of relationships never stores a
/// partition of less modularity than that into single entities.
pub proof fn law_detection_of_equal_weights_is_no_worse_than_singletons(
    g: GraphView,
    weight: int,
    limit: nat,
)
    requires
        g.finite(),
        weight > 0,
        forall|k: int| 0 <= k < g.edges().len() ==> (#[trigger] g.edges()[k]).weight == weight,
        limit >= g.edges().len() * g.entities.len() + g.entities.len() * (g.entities.len() - 1) / 2,
    ensures
        g.network().scaled_modularity(g.detected(limit).stored_labels())
            >= g.network().scaled_modularity(own_labels(g.network().size)),
{
    law_detection_of_equal_weights_settles(g, weight, limit);
    law_detection_is_no_worse_than_singletons(g, limit);
}

/// The communities divide the entities: an entity is a member of the community
/// that it is stored with, and of no other.
pub proof fn law_communities_divide_entities(g: GraphView, c: int, id: Seq<char>)
    requires
        g.finite(),
    ensures
        g.members(c).contains(id) <==> g.entities.contains_key(id) && g.entities[id].community_id
            == c,
{
    lemma_ids(g);
    lemma_filter_contains(g.ids(), g.in_community(c), id);
}

/// A new entity starts in a community of its own, unless another entity is
/// stored with that number already.
pub proof fn law_new_entity_starts_alone(
    g: GraphView,
    id: Seq<char>,
    name: Seq<char>,
    entity_type: Seq<char>,
    description: Seq<char>,
    other: Seq<char>,
)
    requires
        g.finite(),
        forall|b: Seq<char>| #[trigger]
            g.entities.contains_key(b) && b != id ==> g.entities[b].community_id
                != g.entities.len(),
    ensures
        ({
            let h = g.with_entity(id, name, entity_type, description);
            h.members(h.entities[id].community_id).contains(other) <==> other == id
        }),
{
    let h = g.with_entity(id, name, entity_type, description);
    law_communities_divide_entities(h, h.entities[id].community_id, other);
    assert(h.entities.contains_key(other) <==> g.entities.contains_key(other) || other == id);
}

} // verus!
