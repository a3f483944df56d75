//! The operations, by what goes in and what comes out.

use vstd::prelude::*;
use vstd::utf8::{encode_utf8, is_ascii_chars};
use crate::answer_laws::{
    law_overview_is_answered, law_start_exists, law_start_is_longest_spoken_of,
    law_walk_is_answered,
};
use crate::casing::ascii_lowered;
use crate::community_laws::law_community_tells_of_members;
use crate::context::bullets;
use crate::cutting::contains_text;
use crate::document::{read_line, Reading};
use crate::graph::KnowledgeGraph;
use crate::graph_laws::{law_detection_keeps_the_rest, lemma_ids};
use crate::indexer::GraphRagIndexer;
use crate::model::RelationshipView;
use crate::reading_laws::{is_clean, law_written_statement_is_read_back};
use crate::storage_laws::{
    law_entity_is_stored, law_graph_is_seen_whole, law_relationship_is_stored,
};
use crate::string_map::texts;
use crate::telling_laws::law_written_statement_is_told;
use crate::text_laws::law_contained_text_has_two_sides;
use crate::walk_laws::{law_walk_tells_of_entity, law_walk_tells_of_relationship};

verus! {

/// An added entity is there with what was given, and every other entity stays.
pub proof fn law_added_entity_is_there(
    graph: &mut KnowledgeGraph,
    id: String,
    name: String,
    entity_type: String,
    description: String,
    other: Seq<char>,
)
    requires
        old(graph).well_formed(),
        call_ensures(KnowledgeGraph::add_entity, (graph, id, name, entity_type, description), ()),
    ensures
        final(graph).entities@.contains_key(id@),
        final(graph).entities@[id@].id@ == id@,
        final(graph).entities@[id@].name@ == name@,
        final(graph).entities@[id@].entity_type@ == entity_type@,
        final(graph).entities@[id@].description@ == description@,
        final(graph).entities@[id@].community_id == old(graph).entities@.len(),
        other != id@ ==> final(graph)@.entities.contains_key(other)
            == old(graph)@.entities.contains_key(other),
        other != id@ && old(graph)@.entities.contains_key(other) ==> final(graph)@.entities[other]
            == old(graph)@.entities[other],
        final(graph)@.adj == old(graph)@.adj,
{
    let before = *old(graph);
    let after = *final(graph);
    before.lemma_finite();
    assert(after@ == before@.with_entity(id@, name@, entity_type@, description@));
    law_entity_is_stored(before@, id@, name@, entity_type@, description@, other);
    law_graph_is_seen_whole(after, id@, 0);
}

/// An added relationship is there with what was given, behind the others of its
/// source, and all entities stay.
pub proof fn law_added_relationship_is_there(
    graph: &mut KnowledgeGraph,
    source: String,
    target: String,
    relation: String,
    weight: i64,
)
    requires
        old(graph).well_formed(),
        call_ensures(KnowledgeGraph::add_relationship, (graph, source, target, relation, weight), ()),
    ensures
        final(graph).adj@.contains_key(source@),
        final(graph).adj@[source@]@.len() > 0,
        final(graph).adj@[source@]@.last().source@ == source@,
        final(graph).adj@[source@]@.last().target@ == target@,
        final(graph).adj@[source@]@.last().relation@ == relation@,
        final(graph).adj@[source@]@.last().weight == weight,
        old(graph)@.adj.contains_key(source@) ==> final(graph)@.adj[source@].drop_last()
            == old(graph)@.adj[source@],
        final(graph)@.entities == old(graph)@.entities,
{
    let before = *old(graph);
    let after = *final(graph);
    let edge = RelationshipView {
        source: source@,
        target: target@,
        relation: relation@,
        weight: weight as int,
    };
    assert(after@ == before@.with_relationship(edge));
    law_relationship_is_stored(before@, edge, source@);
    assert(after@.adj[source@].len() > 0);
    law_graph_is_seen_whole(after, source@, after@.adj[source@].len() - 1);
}

/// Detection leaves all that is stored as it was, but for the communities.
pub proof fn law_detection_keeps_what_is_stored(
    graph: &mut KnowledgeGraph,
    max_iterations: usize,
    id: Seq<char>,
)
    requires
        old(graph).well_formed(),
        call_ensures(KnowledgeGraph::run_community_detection, (graph, max_iterations), ()),
    ensures
        final(graph)@.adj == old(graph)@.adj,
        final(graph).entities@.contains_key(id) == old(graph).entities@.contains_key(id),
        old(graph).entities@.contains_key(id) ==> {
            &&& final(graph).entities@[id].id@ == old(graph).entities@[id].id@
            &&& final(graph).entities@[id].name@ == old(graph).entities@[id].name@
            &&& final(graph).entities@[id].entity_type@ == old(graph).entities@[id].entity_type@
            &&& final(graph).entities@[id].description@ == old(graph).entities@[id].description@
        },
{
    let before = *old(graph);
    let after = *final(graph);
    assert(after@ == before@.detected(max_iterations as nat));
    law_detection_keeps_the_rest(before@, max_iterations as nat, id);
    law_graph_is_seen_whole(before, id, 0);
    law_graph_is_seen_whole(after, id, 0);
    assert(after@.entities.dom().contains(id) == before@.entities.dom().contains(id));
}

/// The descriptions of a community hold, in full, the name and the description
/// of every entity that is stored with its number.
pub proof fn law_descriptions_tell_of_members(
    graph: &KnowledgeGraph,
    community_id: usize,
    descriptions: Vec<String>,
    id: Seq<char>,
)
    requires
        graph.well_formed(),
        call_ensures(
            KnowledgeGraph::get_community_descriptions,
            (graph, community_id),
            descriptions,
        ),
        graph.entities@.contains_key(id),
        graph.entities@[id].community_id == community_id,
    ensures
        exists|k: int|
            0 <= k < descriptions@.len() && #[trigger] descriptions@[k]@
                == graph.entities@[id].name@ + ": "@ + graph.entities@[id].description@,
{
    graph.lemma_finite();
    law_community_tells_of_members(graph@, community_id as int, id);
    let line = graph.entities@[id].name@ + ": "@ + graph.entities@[id].description@;
    let lines = texts(descriptions@);
    let k = choose|k: int| 0 <= k < lines.len() && lines[k] == line;
    assert(descriptions@[k]@ == line);
}

/// A search that goes further than an identifier tells, in full, of every
/// relationship that is stored under it.
pub proof fn law_search_tells_of_relationships(
    graph: &KnowledgeGraph,
    start: &str,
    hops: usize,
    facts: Vec<String>,
    id: Seq<char>,
    k: int,
)
    requires
        graph.well_formed(),
        call_ensures(KnowledgeGraph::multi_hop_search, (graph, start, hops), facts),
        hops > 0,
        graph@.reachable(start@, (hops - 1) as nat).contains(id),
        graph.adj@.contains_key(id),
        0 <= k < graph.adj@[id]@.len(),
    ensures
        ({
            let edge = graph.adj@[id]@[k];
            exists|n: int|
                0 <= n < facts@.len() && #[trigger] facts@[n]@ == "Relation: "@ + edge.source@
                    + " --["@ + edge.relation@ + "]--> "@ + edge.target@
        }),
{
    let edge = graph.adj@[id]@[k];
    let line = "Relation: "@ + edge.source@ + " --["@ + edge.relation@ + "]--> "@ + edge.target@;
    law_graph_is_seen_whole(*graph, id, k);
    law_walk_tells_of_relationship(graph@, start@, (hops - 1) as nat, id, k);
    let lines = texts(facts@);
    assert(lines.contains(line));
    let n = choose|n: int| 0 <= n < lines.len() && lines[n] == line;
    assert(facts@[n]@ == line);
}

/// A search tells, in full, of every entity that it finds.
pub proof fn law_search_tells_of_entities(
    graph: &KnowledgeGraph,
    start: &str,
    hops: usize,
    facts: Vec<String>,
    id: Seq<char>,
)
    requires
        graph.well_formed(),
        call_ensures(KnowledgeGraph::multi_hop_search, (graph, start, hops), facts),
        graph@.reachable(start@, hops as nat).contains(id),
        graph.entities@.contains_key(id),
    ensures
        ({
            let entity = graph.entities@[id];
            exists|n: int|
                0 <= n < facts@.len() && #[trigger] facts@[n]@ == "Entity: "@ + entity.name@ + " ("@
                    + entity.entity_type@ + ") - "@ + entity.description@
        }),
{
    let entity = graph.entities@[id];
    let line = "Entity: "@ + entity.name@ + " ("@ + entity.entity_type@ + ") - "@
        + entity.description@;
    law_graph_is_seen_whole(*graph, id, 0);
    law_walk_tells_of_entity(graph@, start@, hops as nat, id);
    let lines = texts(facts@);
    assert(lines.contains(line));
    let n = choose|n: int| 0 <= n < lines.len() && lines[n] == line;
    assert(facts@[n]@ == line);
}

/// Reading a line gives back the statement that was written, field by field.
pub proof fn law_line_is_read_as_written(
    line: &str,
    reading: Reading,
    source: Seq<char>,
    relation: Seq<char>,
    target: Seq<char>,
    description: Seq<char>,
)
    requires
        call_ensures(read_line, (line,), reading),
        line@ == source + " -- "@ + relation + " -- "@ + target + " ("@ + description + ")"@,
        source.len() > 0 && target.len() > 0,
        is_clean(source) && is_clean(relation) && is_clean(target) && is_clean(description),
        !exists|a: Seq<char>, b: Seq<char>| source + seq![' '] == #[trigger] (a + " -- "@ + b),
        !exists|a: Seq<char>, b: Seq<char>| relation + seq![' '] == #[trigger] (a + " -- "@ + b),
        !exists|a: Seq<char>, b: Seq<char>| target + seq![' '] == #[trigger] (a + " -- "@ + b),
        !exists|a: Seq<char>, b: Seq<char>| description == #[trigger] (a + " -- "@ + b),
        !target.contains('(') && !target.contains(')') && !description.contains(')'),
    ensures
        match reading {
            Reading::Told(st) => {
                &&& st.source@ == source
                &&& st.relation@ == relation
                &&& st.target@ == target
                &&& st.description@ == description
            },
            _ => false,
        },
{
    let none = Seq::<char>::empty();
    law_written_statement_is_read_back(source, relation, target, description, none, none);
    assert(none + line@ + none =~= line@);
}

/// Taking in a written statement makes its target known under the name and with
/// the description that were written, and stores the relationship.
pub proof fn law_written_statement_is_taken_in(
    indexer: &mut GraphRagIndexer,
    doc: &str,
    source: Seq<char>,
    relation: Seq<char>,
    target: Seq<char>,
    description: Seq<char>,
)
    requires
        old(indexer).graph.well_formed(),
        call_ensures(GraphRagIndexer::ingest_document, (indexer, doc), ()),
        doc@ == source + " -- "@ + relation + " -- "@ + target + " ("@ + description + ")"@,
        source.len() > 0 && target.len() > 0,
        is_clean(source) && is_clean(relation) && is_clean(target) && is_clean(description),
        !exists|a: Seq<char>, b: Seq<char>| source + seq![' '] == #[trigger] (a + " -- "@ + b),
        !exists|a: Seq<char>, b: Seq<char>| relation + seq![' '] == #[trigger] (a + " -- "@ + b),
        !exists|a: Seq<char>, b: Seq<char>| target + seq![' '] == #[trigger] (a + " -- "@ + b),
        !exists|a: Seq<char>, b: Seq<char>| description == #[trigger] (a + " -- "@ + b),
        !target.contains('(') && !target.contains(')') && !description.contains(')'),
        !source.contains('\n') && !relation.contains('\n') && !target.contains('\n')
            && !description.contains('\n'),
    ensures
        final(indexer).graph.entities@.contains_key(source),
        final(indexer).graph.entities@.contains_key(target),
        final(indexer).graph.entities@[target].name@ == target,
        final(indexer).graph.entities@[target].description@ == description,
        final(indexer).graph.adj@.contains_key(source),
        final(indexer).graph.adj@[source]@.len() > 0,
        final(indexer).graph.adj@[source]@.last().source@ == source,
        final(indexer).graph.adj@[source]@.last().target@ == target,
        final(indexer).graph.adj@[source]@.last().relation@ == relation,
{
    let before = old(indexer).graph;
    let after = final(indexer).graph;
    before.lemma_finite();
    assert(after@ == before@.ingested(doc@));
    law_written_statement_is_told(before@, source, relation, target, description);
    law_graph_is_seen_whole(after, target, 0);
    law_graph_is_seen_whole(after, source, after@.adj[source].len() - 1);
}

/// A query, of ASCII characters, in which the whole identifier of an entity
/// stands, in upper or lower case, is answered with a walk of three hops. The
/// walk starts from an entity whose whole identifier stands in the query too,
/// and is no shorter. Only a query for an overview is answered otherwise.
pub proof fn law_query_finds_entity(
    indexer: &GraphRagIndexer,
    query: &str,
    context: String,
    id: Seq<char>,
)
    requires
        indexer.graph.well_formed(),
        call_ensures(GraphRagIndexer::retrieve_context, (indexer, query), context),
        is_ascii_chars(query@),
        indexer.graph@.has_ascii_ids(),
        !contains_text(ascii_lowered(query@), "summary"@),
        !contains_text(ascii_lowered(query@), "themes"@),
        indexer.graph.entities@.contains_key(id),
        id.len() > 0,
        contains_text(ascii_lowered(query@), ascii_lowered(id)),
    ensures
        exists|start: Seq<char>|
            {
                &&& #[trigger] indexer.graph.entities@.contains_key(start)
                &&& contains_text(ascii_lowered(query@), ascii_lowered(start))
                &&& encode_utf8(id).len() <= encode_utf8(start).len()
                &&& context@ == "LOCAL CONTEXT (Entity Walk for '"@ + start + "'):\n"@ + bullets(
                    indexer.graph@.walk_context(start, 3),
                    "  * "@,
                )
            },
{
    let g = indexer.graph@;
    let lowered = g.ascii_lowered_ids();
    let asked = ascii_lowered(query@);
    indexer.graph.lemma_finite();
    lemma_ids(g);
    assert(g.entities.dom().contains(id));
    assert(g.ids().contains(id));
    let j = choose|j: int| 0 <= j < g.ids().len() && g.ids()[j] == id;
    assert(lowered[j] == ascii_lowered(id));
    law_contained_text_has_two_sides(asked, "summary"@);
    law_contained_text_has_two_sides(asked, "themes"@);
    let k = law_start_exists(g, asked, lowered, j);
    law_start_is_longest_spoken_of(g, asked, lowered, k);
    law_walk_is_answered(g, asked, lowered, k);
    let start = g.ids()[k];
    assert(g.ids().contains(start));
    assert(g.entities.dom().contains(start));
    assert(indexer.graph.entities@.contains_key(start));
    assert(lowered[k] == ascii_lowered(start));
}

/// A query, of ASCII characters, with `summary` or `themes` in it, in upper or
/// lower case, is answered with all communities.
pub proof fn law_query_for_overview(indexer: &GraphRagIndexer, query: &str, context: String)
    requires
        indexer.graph.well_formed(),
        call_ensures(GraphRagIndexer::retrieve_context, (indexer, query), context),
        is_ascii_chars(query@),
        contains_text(ascii_lowered(query@), "summary"@) || contains_text(
            ascii_lowered(query@),
            "themes"@,
        ),
    ensures
        context@ == "GLOBAL CONTEXT (Community Clusters):\n"@ + indexer.graph@.clusters(
            indexer.graph@.community_numbers(),
        ),
{
    let g = indexer.graph@;
    let asked = ascii_lowered(query@);
    law_contained_text_has_two_sides(asked, "summary"@);
    law_contained_text_has_two_sides(asked, "themes"@);
    if contains_text(asked, "summary"@) {
        let (a, b) = choose|a: Seq<char>, b: Seq<char>| asked == #[trigger] (a + "summary"@ + b);
        law_overview_is_answered(g, g.lowered_ids(), a, b);
    } else {
        let (a, b) = choose|a: Seq<char>, b: Seq<char>| asked == #[trigger] (a + "themes"@ + b);
        law_overview_is_answered(g, g.lowered_ids(), a, b);
    }
}

} // verus!
