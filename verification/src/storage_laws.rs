//! What storing does: to the entities, to the relationships and to the network
//! that they make up.

use vstd::prelude::*;
use vstd::utf8::encode_utf8;
use crate::adjacency::lemma_network_push;
use crate::collation::{in_order, law_order_is_by_bytes, lemma_in_order, text_before};
use crate::document::Statement;
use crate::edge_laws::{law_relationship_added, lemma_flatten_contains};
use crate::graph::{
    relationships, Entity, KnowledgeGraph, Relationship, MAX_RELATIONSHIPS, WEIGHT_ONE,
};
use crate::graph_laws::{law_weight_ignores_order, lemma_ids};
use crate::model::{joins, network_of, GraphView, RelationshipView};
use crate::string_map::texts;
use crate::sweep::as_ints;

verus! {

/// An entity is known by all of its fields.
pub proof fn law_entity_is_seen_whole(e: Entity)
    ensures
        e@.id == e.id@,
        e@.name == e.name@,
        e@.entity_type == e.entity_type@,
        e@.description == e.description@,
        e@.community_id == e.community_id,
{
}

/// A relationship is known by all of its fields.
pub proof fn law_relationship_is_seen_whole(r: Relationship)
    ensures
        r@.source == r.source@,
        r@.target == r.target@,
        r@.relation == r.relation@,
        r@.weight == r.weight,
{
}

/// A statement is known by all of its fields.
pub proof fn law_statement_is_seen_whole(s: Statement)
    ensures
        s@.source == s.source@,
        s@.relation == s.relation@,
        s@.target == s.target@,
        s@.description == s.description@,
{
}

/// A graph is known by all of its entities and relationships.
pub proof fn law_graph_is_seen_whole(g: KnowledgeGraph, id: Seq<char>, k: int)
    ensures
        g@.entities.contains_key(id) <==> g.entities@.contains_key(id),
        g.entities@.contains_key(id) ==> ({
            let seen = g@.entities[id];
            let stored = g.entities@[id];
            &&& seen.id == stored.id@
            &&& seen.name == stored.name@
            &&& seen.entity_type == stored.entity_type@
            &&& seen.description == stored.description@
            &&& seen.community_id == stored.community_id
        }),
        g@.adj.contains_key(id) <==> g.adj@.contains_key(id),
        g.adj@.contains_key(id) ==> g@.adj[id].len() == g.adj@[id]@.len(),
        g.adj@.contains_key(id) && 0 <= k < g.adj@[id]@.len() ==> ({
            let seen = g@.adj[id][k];
            let stored = g.adj@[id]@[k];
            &&& seen.source == stored.source@
            &&& seen.target == stored.target@
            &&& seen.relation == stored.relation@
            &&& seen.weight == stored.weight
        }),
{
}

/// Lists of strings, relationships and numbers are seen item by item.
pub proof fn law_lists_are_seen_whole(
    strings: Seq<String>,
    edges: Seq<Relationship>,
    numbers: Seq<usize>,
    k: int,
)
    ensures
        texts(strings).len() == strings.len(),
        0 <= k < strings.len() ==> texts(strings)[k] == strings[k]@,
        relationships(edges).len() == edges.len(),
        0 <= k < edges.len() ==> relationships(edges)[k].source == edges[k].source@
            && relationships(edges)[k].target == edges[k].target@
            && relationships(edges)[k].relation == edges[k].relation@
            && relationships(edges)[k].weight == edges[k].weight,
        as_ints(numbers).len() == numbers.len(),
        0 <= k < numbers.len() ==> as_ints(numbers)[k] == numbers[k],
{
}

/// A graph that is well-formed has room for more relationships as long as there
/// are fewer than two to the power of sixty.
pub proof fn law_graph_has_room(g: KnowledgeGraph)
    ensures
        g.well_formed() <==> g.entities.well_formed() && g.adj.well_formed() && g@.edges().len()
            <= 0x1000_0000_0000_0000,
        MAX_RELATIONSHIPS == 0x1000_0000_0000_0000,
        WEIGHT_ONE == 0x1_0000_0000,
{
}

/// The empty graph has no entity and no relationship.
pub proof fn law_empty_graph(id: Seq<char>)
    ensures
        !GraphView::empty().entities.contains_key(id),
        !GraphView::empty().adj.contains_key(id),
        GraphView::empty().entities.len() == 0,
        GraphView::empty().finite(),
{
}

/// What is read back of a stored entity is what was stored. Every other entity,
/// and every relationship, stays as it was.
pub proof fn law_entity_is_stored(
    g: GraphView,
    id: Seq<char>,
    name: Seq<char>,
    entity_type: Seq<char>,
    description: Seq<char>,
    other: Seq<char>,
)
    requires
        g.finite(),
    ensures
        ({
            let h = g.with_entity(id, name, entity_type, description);
            &&& h.finite()
            &&& h.adj == g.adj
            &&& h.entities.contains_key(id)
            &&& h.entities[id].id == id
            &&& h.entities[id].name == name
            &&& h.entities[id].entity_type == entity_type
            &&& h.entities[id].description == description
            &&& h.entities[id].community_id == g.entities.len()
            &&& h.entities.len() == g.entities.len() + (if g.entities.contains_key(id) {
                0int
            } else {
                1
            })
            &&& other != id ==> h.entities.contains_key(other) == g.entities.contains_key(other)
            &&& other != id && g.entities.contains_key(other) ==> h.entities[other]
                == g.entities[other]
        }),
{
    let h = g.with_entity(id, name, entity_type, description);
    assert(h.entities.dom() =~= g.entities.dom().insert(id));
}

/// A stored relationship stands last among those of its source. The
/// relationships of every other source, and every entity, stay as they were.
pub proof fn law_relationship_is_stored(g: GraphView, edge: RelationshipView, other: Seq<char>)
    ensures
        ({
            let h = g.with_relationship(edge);
            &&& h.entities == g.entities
            &&& h.adj.contains_key(edge.source)
            &&& h.adj[edge.source].len() > 0
            &&& h.adj[edge.source].last() == edge
            &&& g.adj.contains_key(edge.source) ==> h.adj[edge.source].drop_last()
                == g.adj[edge.source]
            &&& !g.adj.contains_key(edge.source) ==> h.adj[edge.source].len() == 1
            &&& other != edge.source ==> h.adj.contains_key(other) == g.adj.contains_key(other)
            &&& other != edge.source && g.adj.contains_key(other) ==> h.adj[other] == g.adj[other]
        }),
{
    let h = g.with_relationship(edge);
    if g.adj.contains_key(edge.source) {
        assert(h.adj[edge.source].drop_last() =~= g.adj[edge.source]);
    }
}

/// An entity and a relationship may be stored in either order.
pub proof fn law_storing_commutes(
    g: GraphView,
    id: Seq<char>,
    name: Seq<char>,
    entity_type: Seq<char>,
    description: Seq<char>,
    edge: RelationshipView,
)
    ensures
        g.with_entity(id, name, entity_type, description).with_relationship(edge)
            == g.with_relationship(edge).with_entity(id, name, entity_type, description),
{
}

/// The outgoing relationships of an identifier are those stored under it.
pub proof fn law_outgoing_are_those_stored(g: GraphView, id: Seq<char>)
    ensures
        g.adj.contains_key(id) ==> g.outgoing(id) == g.adj[id],
        !g.adj.contains_key(id) ==> g.outgoing(id).len() == 0,
{
}

/// The relationships of a graph are those stored under some source.
pub proof fn law_edges_are_those_stored(g: GraphView, edge: RelationshipView)
    requires
        g.finite(),
    ensures
        g.edges().contains(edge) <==> exists|k: Seq<char>, i: int|
            g.adj.contains_key(k) && 0 <= i < g.adj[k].len() && #[trigger] g.adj[k][i] == edge,
{
    let keys = in_order(g.adj.dom());
    let lists = keys.map_values(|k: Seq<char>| g.adj[k]);
    lemma_in_order(g.adj.dom());
    lemma_flatten_contains(lists, edge);
    if g.edges().contains(edge) {
        let p = choose|p: int| 0 <= p < lists.len() && (#[trigger] lists[p]).contains(edge);
        let i = choose|i: int| 0 <= i < lists[p].len() && lists[p][i] == edge;
        assert(keys.contains(keys[p]));
        assert(g.adj.dom().contains(keys[p]));
        assert(g.adj[keys[p]][i] == edge);
    }
    if exists|k: Seq<char>, i: int|
        g.adj.contains_key(k) && 0 <= i < g.adj[k].len() && #[trigger] g.adj[k][i] == edge {
        let (k, i) = choose|k: Seq<char>, i: int|
            g.adj.contains_key(k) && 0 <= i < g.adj[k].len() && #[trigger] g.adj[k][i] == edge;
        assert(g.adj.dom().contains(k));
        assert(keys.contains(k));
        let p = choose|p: int| 0 <= p < keys.len() && keys[p] == k;
        assert(lists[p] == g.adj[k]);
        assert(lists[p].contains(edge));
    }
}

/// The network after one more relationship is that of the relationships with
/// this one behind them.
proof fn lemma_network_added(g: GraphView, edge: RelationshipView)
    requires
        g.finite(),
    ensures
        g.with_relationship(edge).network() == network_of(g.ids(), g.edges().push(edge)),
{
    broadcast use vstd::seq_lib::group_to_multiset_ensures;

    let h = g.with_relationship(edge);
    let pushed = g.edges().push(edge);
    law_relationship_added(g, edge);
    let a = h.network();
    let b = network_of(g.ids(), pushed);
    assert(pushed.to_multiset() =~= g.edges().to_multiset().insert(edge));
    assert forall|p: (int, int)| #[trigger]
        a.links.dom().contains(p) == b.links.dom().contains(p) && (a.links.dom().contains(p)
            ==> a.links[p] == b.links[p]) by {
        law_weight_ignores_order(h.edges(), pushed, g.ids()[p.0], g.ids()[p.1]);
    }
    assert(a.links.dom() =~= b.links.dom());
    assert(a.links =~= b.links);
}

/// A relationship between two known entities, of whatever weight, links them
/// and raises the weight between them, from both ends, by its own. All other
/// links stay as they were.
pub proof fn law_relationship_links_its_ends(g: GraphView, edge: RelationshipView, i: int, j: int)
    requires
        g.finite(),
        edge.source != edge.target,
        0 <= i < g.ids().len(),
        0 <= j < g.ids().len(),
        g.ids()[i] == edge.source,
        g.ids()[j] == edge.target,
    ensures
        ({
            let before = g.network().links;
            let after = g.with_relationship(edge).network().links;
            &&& after.contains_key((i, j))
            &&& after.contains_key((j, i))
            &&& after[(i, j)] == edge.weight + (if before.contains_key((i, j)) {
                before[(i, j)]
            } else {
                0
            })
            &&& after[(j, i)] == edge.weight + (if before.contains_key((j, i)) {
                before[(j, i)]
            } else {
                0
            })
            &&& forall|a: int, b: int|
                (a, b) != (i, j) && (a, b) != (j, i) ==> (#[trigger] after.contains_key((a, b))
                    == before.contains_key((a, b))) && (before.contains_key((a, b)) ==> after[(a, b)]
                    == before[(a, b)])
        }),
{
    let ids = g.ids();
    let h = g.with_relationship(edge);
    let before = g.network();
    let after = h.network();
    lemma_ids(g);
    lemma_network_added(g, edge);
    lemma_network_push(ids, g.edges(), edge, i, j);
    lemma_network_push(ids, g.edges(), edge, j, i);
    assert(after.linked(i, j) && after.linked(j, i));
    assert(after.weight(i, j) == before.weight(i, j) + edge.weight);
    assert(after.weight(j, i) == before.weight(j, i) + edge.weight);
    assert forall|a: int, b: int| (a, b) != (i, j) && (a, b) != (j, i) implies (
    #[trigger] after.links.contains_key((a, b)) == before.links.contains_key((a, b))) && (
    before.links.contains_key((a, b)) ==> after.links[(a, b)] == before.links[(a, b)]) by {
        if 0 <= a < ids.len() && 0 <= b < ids.len() && a != b {
            lemma_network_push(ids, g.edges(), edge, a, b);
            assert(!joins(edge, ids[a], ids[b]));
            assert(after.linked(a, b) == before.linked(a, b));
            assert(after.weight(a, b) == before.weight(a, b));
        }
    }
}

/// Without relationships there are no links.
pub proof fn law_no_links_without_relationships(g: GraphView, i: int, j: int)
    requires
        g.finite(),
        forall|k: Seq<char>| #[trigger] g.adj.contains_key(k) ==> g.adj[k].len() == 0,
    ensures
        !g.network().links.contains_key((i, j)),
        g.network().size == g.entities.len(),
{
    let ids = g.ids();
    lemma_ids(g);
    if g.network().links.contains_key((i, j)) {
        let k = choose|k: int|
            0 <= k < g.edges().len() && joins(#[trigger] g.edges()[k], ids[i], ids[j]);
        assert(g.edges().contains(g.edges()[k]));
        law_edges_are_those_stored(g, g.edges()[k]);
        let (s, m) = choose|s: Seq<char>, m: int|
            g.adj.contains_key(s) && 0 <= m < g.adj[s].len() && #[trigger] g.adj[s][m]
                == g.edges()[k];
        assert(g.adj.contains_key(s));
    }
}

/// Storing an entity leaves the links among the others as they were.
pub proof fn law_entity_keeps_links(
    g: GraphView,
    id: Seq<char>,
    name: Seq<char>,
    entity_type: Seq<char>,
    description: Seq<char>,
    i: int,
    j: int,
    a: int,
    b: int,
)
    requires
        g.finite(),
        0 <= i < g.ids().len(),
        0 <= j < g.ids().len(),
        ({
            let h = g.with_entity(id, name, entity_type, description);
            &&& 0 <= a < h.ids().len()
            &&& 0 <= b < h.ids().len()
            &&& h.ids()[a] == g.ids()[i]
            &&& h.ids()[b] == g.ids()[j]
        }),
    ensures
        ({
            let before = g.network().links;
            let after = g.with_entity(id, name, entity_type, description).network().links;
            &&& after.contains_key((a, b)) == before.contains_key((i, j))
            &&& before.contains_key((i, j)) ==> after[(a, b)] == before[(i, j)]
        }),
{
    let h = g.with_entity(id, name, entity_type, description);
    law_entity_is_stored(g, id, name, entity_type, description, id);
    lemma_ids(g);
    lemma_ids(h);
    assert(h.edges() == g.edges());
}

/// The identifiers of a graph are listed once each, and in the order of their
/// bytes.
pub proof fn law_ids_are_listed(g: GraphView, id: Seq<char>, i: int, j: int)
    requires
        g.finite(),
    ensures
        g.ids().len() == g.entities.len(),
        g.entities.contains_key(id) <==> exists|k: int|
            0 <= k < g.ids().len() && #[trigger] g.ids()[k] == id,
        0 <= i < j < g.ids().len() ==> ({
            let a = encode_utf8(g.ids()[i]);
            let b = encode_utf8(g.ids()[j]);
            exists|n: int|
                0 <= n <= a.len() && n < b.len() && #[trigger] a.take(n) == b.take(n) && (n
                    == a.len() || a[n] < b[n])
        }),
{
    lemma_ids(g);
    lemma_in_order(g.entities.dom());
    assert(g.ids().contains(id) <==> g.entities.contains_key(id));
    if 0 <= i < j < g.ids().len() {
        assert(text_before(g.ids()[i], g.ids()[j]));
        law_order_is_by_bytes(g.ids()[i], g.ids()[j]);
    }
}

} // verus!
