//! Knowledge graphs as mathematical values.

use vstd::prelude::*;
use crate::collation::in_order;
use crate::network::Network;

verus! {

/// An entity: texts, and the community that it belongs to.
#[verifier::ext_equal]
pub struct EntityView {
    pub id: Seq<char>,
    pub name: Seq<char>,
    pub entity_type: Seq<char>,
    pub description: Seq<char>,
    pub community_id: int,
}

/// A directed, weighted relationship.
#[verifier::ext_equal]
pub struct RelationshipView {
    pub source: Seq<char>,
    pub target: Seq<char>,
    pub relation: Seq<char>,
    pub weight: int,
}

/// The relationship joins the two entities, in one direction or the other.
pub open spec fn joins(edge: RelationshipView, a: Seq<char>, b: Seq<char>) -> bool {
    (edge.source == a && edge.target == b) || (edge.source == b && edge.target == a)
}

/// Some relationship joins the two entities.
pub open spec fn joined(edges: Seq<RelationshipView>, a: Seq<char>, b: Seq<char>) -> bool {
    exists|k: int| 0 <= k < edges.len() && joins(#[trigger] edges[k], a, b)
}

/// The weights of all relationships that join the two entities, added up.
pub open spec fn weight_between(
    edges: Seq<RelationshipView>,
    a: Seq<char>,
    b: Seq<char>,
) -> int
    decreases edges.len(),
{
    if edges.len() == 0 {
        0
    } else {
        weight_between(edges.drop_last(), a, b) + (if joins(edges.last(), a, b) {
            edges.last().weight
        } else {
            0
        })
    }
}

/// The undirected network of the listed entities. Relationships of an entity
/// with itself and relationships with entities not listed leave no link;
/// parallel relationships are added up.
pub open spec fn network_of(ids: Seq<Seq<char>>, edges: Seq<RelationshipView>) -> Network {
    Network {
        size: ids.len(),
        links: Map::new(
            |p: (int, int)|
                0 <= p.0 < ids.len() && 0 <= p.1 < ids.len() && p.0 != p.1 && joined(
                    edges,
                    ids[p.0],
                    ids[p.1],
                ),
            |p: (int, int)| weight_between(edges, ids[p.0], ids[p.1]),
        ),
    }
}

/// A knowledge graph: entities by identifier, and relationships by source.
#[verifier::ext_equal]
pub struct GraphView {
    pub entities: Map<Seq<char>, EntityView>,
    pub adj: Map<Seq<char>, Seq<RelationshipView>>,
}

impl GraphView {
    /// The graph without entities and relationships.
    pub open spec fn empty() -> GraphView {
        GraphView { entities: Map::empty(), adj: Map::empty() }
    }

    /// Only finitely many entities and sources.
    pub open spec fn finite(self) -> bool {
        self.entities.dom().finite() && self.adj.dom().finite()
    }

    /// The identifiers of the entities, in ascending order.
    pub open spec fn ids(self) -> Seq<Seq<char>> {
        in_order(self.entities.dom())
    }

    /// The relationships that are stored under a source.
    pub open spec fn outgoing(self, id: Seq<char>) -> Seq<RelationshipView> {
        if self.adj.contains_key(id) {
            self.adj[id]
        } else {
            Seq::empty()
        }
    }

    /// All relationships, source by source.
    pub open spec fn edges(self) -> Seq<RelationshipView> {
        in_order(self.adj.dom()).map_values(|k: Seq<char>| self.adj[k]).flatten()
    }

    /// The graph after an entity was stored. Its community has the number of
    /// entities there were before. An entity stored again gets that number too,
    /// and then shares it with the next new one.
    pub open spec fn with_entity(
        self,
        id: Seq<char>,
        name: Seq<char>,
        entity_type: Seq<char>,
        description: Seq<char>,
    ) -> GraphView {
        GraphView {
            entities: self.entities.insert(
                id,
                EntityView {
                    id,
                    name,
                    entity_type,
                    description,
                    community_id: self.entities.len() as int,
                },
            ),
            ..self
        }
    }

    /// The graph after a relationship was appended to those of its source.
    pub open spec fn with_relationship(self, edge: RelationshipView) -> GraphView {
        GraphView {
            adj: self.adj.insert(edge.source, self.outgoing(edge.source).push(edge)),
            ..self
        }
    }

    /// The undirected network of the entities, numbered in ascending order of
    /// their identifiers.
    pub open spec fn network(self) -> Network {
        network_of(self.ids(), self.edges())
    }

    /// The community of an entity, as found within `limit` sweeps.
    pub open spec fn community(self, id: Seq<char>, limit: nat) -> int {
        self.network().communities(self.ids(), limit)[self.ids().index_of(id)]
    }

    /// The graph after community detection with at most `limit` sweeps.
    pub open spec fn detected(self, limit: nat) -> GraphView {
        GraphView {
            entities: Map::new(
                |id: Seq<char>| self.entities.contains_key(id),
                |id: Seq<char>|
                    EntityView {
                        community_id: self.community(id, limit),
                        ..self.entities[id]
                    },
            ),
            ..self
        }
    }
}

} // verus!
