//! The knowledge graph: entities, relationships and what is computed from them.

use std::collections::HashMap;
use vstd::prelude::*;
use crate::adjacency::{
    add_edge, all_seated, largest_weight, lemma_bulk_within_limit, lemma_network_push_ignored,
    lemma_network_well_formed, within_limits,
};
use crate::collation::in_order;
use crate::edge_laws::{
    law_relationship_added, lemma_flatten_all, lemma_flatten_split, lemma_flatten_take_succ,
};
use crate::model::{network_of, EntityView, GraphView, RelationshipView};
use crate::propagation::{propagate, rows_list, Link, BULK_LIMIT};
use crate::string_map::StringMap;
use crate::sums::magnitude;
use crate::sweep::as_ints;

verus! {

/// A weight of one. Weights are fixed-point numbers with 32 fractional bits.
pub const WEIGHT_ONE: i64 = 4294967296;

/// The largest number of relationships in one graph. Within it no sum of
/// weights leaves the range of the integers that it is computed with.
pub const MAX_RELATIONSHIPS: u64 = 0x1000_0000_0000_0000;

/// An entity.
#[derive(Clone, Debug)]
pub struct Entity {
    pub id: String,
    pub name: String,
    pub entity_type: String,
    pub description: String,
    pub community_id: usize,
}

impl View for Entity {
    type V = EntityView;

    open spec fn view(&self) -> EntityView {
        EntityView {
            id: self.id@,
            name: self.name@,
            entity_type: self.entity_type@,
            description: self.description@,
            community_id: self.community_id as int,
        }
    }
}

/// A directed relationship. Its weight is in units of `WEIGHT_ONE`.
#[derive(Clone, Debug)]
pub struct Relationship {
    pub source: String,
    pub target: String,
    pub relation: String,
    pub weight: i64,
}

impl View for Relationship {
    type V = RelationshipView;

    open spec fn view(&self) -> RelationshipView {
        RelationshipView {
            source: self.source@,
            target: self.target@,
            relation: self.relation@,
            weight: self.weight as int,
        }
    }
}

/// The relationships as mathematical values.
pub open spec fn relationships(edges: Seq<Relationship>) -> Seq<RelationshipView> {
    edges.map_values(|e: Relationship| e@)
}

/// A knowledge graph: entities by identifier, and relationships by source.
#[derive(Clone, Debug)]
pub struct KnowledgeGraph {
    pub entities: StringMap<Entity>,
    pub adj: StringMap<Vec<Relationship>>,
}

impl View for KnowledgeGraph {
    type V = GraphView;

    open spec fn view(&self) -> GraphView {
        GraphView {
            entities: self.entities@.map_values(|e: Entity| e@),
            adj: self.adj@.map_values(|edges: Vec<Relationship>| relationships(edges@)),
        }
    }
}

impl Default for KnowledgeGraph {
    /// An empty graph.
    fn default() -> (g: KnowledgeGraph)
        ensures
            g.well_formed(),
            g@ == GraphView::empty(),
            g@.edges().len() == 0,
    {
        KnowledgeGraph::new()
    }
}

impl KnowledgeGraph {
    /// Both maps are in order, and the relationships are within their number.
    pub open spec fn well_formed(&self) -> bool {
        &&& self.entities.well_formed()
        &&& self.adj.well_formed()
        &&& self@.edges().len() <= MAX_RELATIONSHIPS
    }

    pub proof fn lemma_finite(&self)
        requires
            self.well_formed(),
        ensures
            self@.finite(),
            self@.entities.dom() == self.entities@.dom(),
            self@.adj.dom() == self.adj@.dom(),
    {
        self.entities.lemma_listing();
        self.adj.lemma_listing();
        assert(self@.entities.dom() =~= self.entities@.dom());
        assert(self@.adj.dom() =~= self.adj@.dom());
    }

    /// An empty graph.
    pub fn new() -> (g: KnowledgeGraph)
        ensures
            g.well_formed(),
            g@ == GraphView::empty(),
            g@.edges().len() == 0,
    {
        let g = KnowledgeGraph { entities: StringMap::new(), adj: StringMap::new() };
        proof {
            assert(g@.entities =~= GraphView::empty().entities);
            assert(g@.adj =~= GraphView::empty().adj);
            crate::collation::lemma_in_order(g@.adj.dom());
            assert(g@.edges() =~= Seq::empty());
        }
        g
    }

    /// Stores an entity; one with the same identifier is replaced. The entity
    /// starts in the community whose number is the number of entities so far.
    pub fn add_entity(
        &mut self,
        id: String,
        name: String,
        entity_type: String,
        description: String,
    )
        requires
            old(self).well_formed(),
        ensures
            final(self).well_formed(),
            final(self)@ == old(self)@.with_entity(id@, name@, entity_type@, description@),
            final(self)@.edges() == old(self)@.edges(),
    {
        let ghost before = *self;
        proof {
            self.lemma_finite();
        }
        let community_id: usize = self.entities.len();
        let entity = Entity { id: id.clone(), name, entity_type, description, community_id };
        self.entities.insert(id, entity);
        proof {
            let target = before@.with_entity(
                entity.id@,
                entity.name@,
                entity.entity_type@,
                entity.description@,
            );
            assert(self@.entities =~= target.entities);
            assert(self@ == target);
        }
    }

    /// Stores a relationship behind the others of its source.
    pub fn add_relationship(
        &mut self,
        source: String,
        target: String,
        relation: String,
        weight: i64,
    )
        requires
            old(self).well_formed(),
            old(self)@.edges().len() < MAX_RELATIONSHIPS,
        ensures
            final(self).well_formed(),
            final(self)@ == old(self)@.with_relationship(
                RelationshipView {
                    source: source@,
                    target: target@,
                    relation: relation@,
                    weight: weight as int,
                },
            ),
            final(self)@.edges().len() == old(self)@.edges().len() + 1,
    {
        let ghost before = *self;
        proof {
            self.lemma_finite();
            self.adj.lemma_listing();
        }
        let edge = Relationship { source: source.clone(), target, relation, weight };
        let ghost view = edge@;
        match self.adj.index_of(source.as_str()) {
            Some(i) => {
                let ghost map = self.adj;
                self.adj.value_at_mut(i).push(edge);
                proof {
                    assert(map@.contains_key(map.key_order()[i as int]));
                    let added = self.adj.value_order()[i as int];
                    map.lemma_value_changed(self.adj, i as int, added);
                    assert(relationships(added@) =~= relationships(map@[source@]@).push(view));
                }
            },
            None => {
                let mut edges: Vec<Relationship> = Vec::new();
                edges.push(edge);
                proof {
                    assert(relationships(edges@) =~= Seq::empty().push(view));
                }
                self.adj.insert(source, edges);
            },
        }
        proof {
            assert(self@.adj =~= before@.with_relationship(view).adj);
            assert(self@ == before@.with_relationship(view));
            law_relationship_added(before@, view);
        }
    }

    /// The relationships of each source, in the order of the sources.
    pub open spec fn lists(&self) -> Seq<Seq<RelationshipView>> {
        self.adj.value_order().map_values(|edges: Vec<Relationship>| relationships(edges@))
    }

    pub proof fn lemma_edges_listed(&self)
        requires
            self.well_formed(),
        ensures
            self.lists().len() == self.adj@.len(),
            self@.edges() == self.lists().flatten(),
            within_limits(self@.edges()),
    {
        self.adj.lemma_listing();
        self.lemma_finite();
        let keys = in_order(self@.adj.dom());
        let named = keys.map_values(|k: Seq<char>| self@.adj[k]);
        assert forall|i: int| 0 <= i < keys.len() implies named[i] == self.lists()[i] by {
            assert(self.adj@.contains_key(self.adj.key_order()[i]));
        }
        assert(named =~= self.lists());
        lemma_flatten_all(self.lists(), |e: RelationshipView| magnitude(e.weight) <= largest_weight());
    }

    /// The undirected, weighted links of every entity, entities numbered in
    /// ascending order of their identifiers. Relationships of an entity with
    /// itself and relationships with unknown entities are passed over; the
    /// weights of parallel relationships are added up.
    pub(crate) fn undirected_adjacency(&self) -> (rows: Vec<Vec<Link>>)
        requires
            self.well_formed(),
        ensures
            rows_list(rows@, self@.network()),
            self@.network().bulk() <= BULK_LIMIT,
    {
        let ghost ids = self@.ids();
        proof {
            self.lemma_finite();
            self.entities.lemma_listing();
            self.adj.lemma_listing();
            self.lemma_edges_listed();
            lemma_bulk_within_limit(ids, self@.edges());
        }
        let n: usize = self.entities.len();
        let mut rows: Vec<Vec<Link>> = Vec::new();
        let mut seats: Vec<HashMap<usize, usize>> = Vec::new();
        let ghost none = Seq::<RelationshipView>::empty();
        let mut i: usize = 0;
        while i < n
            invariant
                i <= n,
                rows.len() == i,
                seats.len() == i,
                forall|a: int| 0 <= a < i ==> (#[trigger] rows[a])@.len() == 0,
                all_seated(seats@, rows@),
            decreases n - i,
        {
            rows.push(Vec::new());
            seats.push(HashMap::new());
            i += 1;
        }
        proof {
            lemma_network_well_formed(ids, none);
            assert(self.lists().take(0).flatten() =~= none) by {
                assert(self.lists().take(0) =~= Seq::empty());
            }
        }
        let sources: usize = self.adj.len();
        let mut s: usize = 0;
        while s < sources
            invariant
                s <= sources,
                sources == self.adj@.len(),
                self.well_formed(),
                ids == self@.ids(),
                rows_list(rows@, network_of(ids, self.lists().take(s as int).flatten())),
                all_seated(seats@, rows@),
            decreases sources - s,
        {
            let edges: &Vec<Relationship> = self.adj.value_at(s);
            let ghost earlier = self.lists().take(s as int).flatten();
            let ghost views = relationships(edges@);
            proof {
                self.lemma_edges_listed();
                assert(self.lists()[s as int] == views);
                assert(earlier + views.take(0) =~= earlier);
            }
            let mut e: usize = 0;
            while e < edges.len()
                invariant
                    e <= edges.len(),
                    s < sources,
                    sources == self.adj@.len(),
                    self.well_formed(),
                    ids == self@.ids(),
                    views == relationships(edges@),
                    self.lists().len() == sources,
                    self.lists()[s as int] == views,
                    earlier == self.lists().take(s as int).flatten(),
                    rows_list(rows@, network_of(ids, earlier + views.take(e as int))),
                    all_seated(seats@, rows@),
                decreases edges.len() - e,
            {
                let ghost done = earlier + views.take(e as int);
                let edge: &Relationship = &edges[e];
                proof {
                    assert(edge@ == views[e as int]);
                    assert(done.push(edge@) =~= earlier + views.take(e + 1));
                    self.lemma_prefix_within_limits(s as int, e + 1);
                }
                self.add_to_rows(&mut rows, &mut seats, edge, Ghost(done));
                e += 1;
            }
            proof {
                assert(views.take(edges.len() as int) =~= views);
                lemma_flatten_take_succ(self.lists(), s as int);
            }
            s += 1;
        }
        proof {
            self.lemma_edges_listed();
            assert(self.lists().take(sources as int) =~= self.lists());
        }
        rows
    }

    proof fn lemma_prefix_within_limits(&self, s: int, e: int)
        requires
            self.well_formed(),
            0 <= s < self.lists().len(),
            0 <= e <= self.lists()[s].len(),
        ensures
            within_limits(self.lists().take(s).flatten() + self.lists()[s].take(e)),
    {
        let lists = self.lists();
        self.lemma_edges_listed();
        lemma_flatten_split(lists, s);
        let done = lists.take(s).flatten() + lists[s].take(e);
        assert forall|k: int| 0 <= k < done.len() implies magnitude((#[trigger] done[k]).weight)
            <= largest_weight() by {
            assert(done[k] == self@.edges()[k]);
        }
    }

    /// Takes one more relationship into the rows.
    fn add_to_rows(
        &self,
        rows: &mut Vec<Vec<Link>>,
        seats: &mut Vec<HashMap<usize, usize>>,
        edge: &Relationship,
        Ghost(done): Ghost<Seq<RelationshipView>>,
    )
        requires
            self.well_formed(),
            within_limits(done.push(edge@)),
            rows_list(old(rows)@, network_of(self@.ids(), done)),
            all_seated(old(seats)@, old(rows)@),
        ensures
            rows_list(final(rows)@, network_of(self@.ids(), done.push(edge@))),
            all_seated(final(seats)@, final(rows)@),
    {
        let ghost ids = self@.ids();
        proof {
            self.lemma_finite();
            self.entities.lemma_listing();
        }
        if edge.source == edge.target {
            proof {
                lemma_network_push_ignored(ids, done, edge@);
            }
            return ;
        }
        let from = self.entities.index_of(edge.source.as_str());
        let to = self.entities.index_of(edge.target.as_str());
        match (from, to) {
            (Some(i), Some(j)) => {
                add_edge(rows, seats, i, j, edge.weight, Ghost(ids), Ghost(done), Ghost(edge@));
            },
            _ => {
                proof {
                    lemma_network_push_ignored(ids, done, edge@);
                }
            },
        }
    }

    /// Finds communities by label propagation and stores them in the entities.
    ///
    /// Every entity starts with a label of its own. The entities are visited
    /// one after the other, in every sweep in the order of a fixed hash of their
    /// identifiers, equal hashes in the order of the identifiers. A visited
    /// entity adopts the label of the largest total weight among its neighbors,
    /// the smallest of several such; without neighbors it keeps its own. The
    /// search ends after a sweep that changed nothing, and in any case after
    /// `max_iterations` sweeps.
    pub fn run_community_detection(&mut self, max_iterations: usize)
        requires
            old(self).well_formed(),
        ensures
            final(self).well_formed(),
            final(self)@ == old(self)@.detected(max_iterations as nat),
            final(self)@.edges() == old(self)@.edges(),
    {
        let ghost before = *self;
        let ghost limit = max_iterations as nat;
        proof {
            self.lemma_finite();
            self.entities.lemma_listing();
        }
        let rows = self.undirected_adjacency();
        let ghost net = self@.network();
        let labels = propagate(Ghost(net), &rows, self.entities.keys(), max_iterations);
        let n: usize = self.entities.len();
        let mut i: usize = 0;
        while i < n
            invariant
                i <= n,
                n == before.entities@.len(),
                before.well_formed(),
                labels.len() == n,
                as_ints(labels@) == before@.network().communities(before@.ids(), limit),
                self.adj == before.adj,
                self.entities.well_formed(),
                self.entities@.len() == n,
                self.entities.key_order() == before.entities.key_order(),
                self.entities.value_order().len() == n,
                forall|k: int|
                    i <= k < n ==> #[trigger] self.entities.value_order()[k]
                        == before.entities.value_order()[k],
                forall|k: int|
                    0 <= k < i ==> (#[trigger] self.entities.value_order()[k])@ == (EntityView {
                        community_id: labels[k] as int,
                        ..before.entities.value_order()[k]@
                    }),
            decreases n - i,
        {
            let entity = self.entities.value_at_mut(i);
            entity.community_id = labels[i];
            proof {
                self.entities.lemma_listing();
            }
            i += 1;
        }
        proof {
            before.lemma_finite();
            before.entities.lemma_listing();
            self.entities.lemma_listing();
            let target = before@.detected(limit);
            let keys = before.entities.key_order();
            assert forall|id: Seq<char>| #[trigger]
                self@.entities.dom().contains(id) == target.entities.dom().contains(id) by {
                assert(self.entities@.contains_key(id) == keys.contains(id));
                assert(before.entities@.contains_key(id) == keys.contains(id));
            }
            assert(self@.entities.dom() =~= target.entities.dom());
            assert forall|id: Seq<char>| self@.entities.contains_key(id) implies #[trigger]
                self@.entities[id] == target.entities[id] by {
                let k = keys.index_of(id);
                assert(keys.contains(id));
                assert(self.entities@.contains_key(self.entities.key_order()[k]));
                assert(before.entities@.contains_key(keys[k]));
                assert(as_ints(labels@)[k] == labels[k]);
            }
            assert(self@.entities =~= target.entities);
            assert(self@ == target);
            assert(self@.edges() == before@.edges());
        }
    }
}

} // verus!
