//! The indexer: documents in, contexts out.

use vstd::prelude::*;
use vstd::string::StringExecFns;
use vstd::utf8::is_ascii_chars;
use crate::casing::{ascii_lowered, lowercase, to_lowercase};
use crate::cutting::{lines, lines_of, slices};
use crate::document::{
    read_line, readable, readable_line, statement, statements, Reading, Statement, StatementView,
};
use crate::edge_laws::law_relationship_added;
use crate::graph::{KnowledgeGraph, MAX_RELATIONSHIPS, WEIGHT_ONE};
use crate::model::{GraphView, RelationshipView};
use crate::string_map::texts;

verus! {

/// The number of sweeps after which the indexer ends community detection.
pub const INDEX_SWEEPS: usize = 100;

/// The relationship that a statement tells of.
pub open spec fn told_relationship(st: StatementView) -> RelationshipView {
    RelationshipView {
        source: st.source,
        target: st.target,
        relation: st.relation,
        weight: WEIGHT_ONE as int,
    }
}

impl GraphView {
    /// The graph with an entity for the source of a statement. One that is
    /// there already stays as it is.
    pub open spec fn with_source(self, id: Seq<char>) -> GraphView {
        if self.entities.contains_key(id) {
            self
        } else {
            self.with_entity(id, id, "Entity"@, "Concept: "@ + id)
        }
    }

    /// The graph after a statement was taken in.
    pub open spec fn told(self, st: StatementView) -> GraphView {
        self.with_source(st.source).with_entity(
            st.target,
            st.target,
            "Target"@,
            st.description,
        ).with_relationship(told_relationship(st))
    }

    /// The graph after several statements were taken in, one after the other.
    pub open spec fn told_all(self, sts: Seq<StatementView>) -> GraphView
        decreases sts.len(),
    {
        if sts.len() == 0 {
            self
        } else {
            self.told_all(sts.drop_last()).told(sts.last())
        }
    }

    /// The identifiers of the entities in lower case, in ascending order of the
    /// identifiers themselves.
    pub open spec fn lowered_ids(self) -> Seq<Seq<char>> {
        self.ids().map_values(|id: Seq<char>| lowercase(id))
    }

    /// All identifiers are ASCII texts.
    pub open spec fn has_ascii_ids(self) -> bool {
        forall|id: Seq<char>| #[trigger] self.entities.contains_key(id) ==> is_ascii_chars(id)
    }

    /// The identifiers in lower case, where they are ASCII texts.
    pub open spec fn ascii_lowered_ids(self) -> Seq<Seq<char>> {
        self.ids().map_values(|id: Seq<char>| ascii_lowered(id))
    }

    /// The graph after a document was taken in: its statements, and then the
    /// communities of the whole.
    pub open spec fn ingested(self, doc: Seq<char>) -> GraphView {
        self.told_all(statements(lines(doc))).detected(INDEX_SWEEPS as nat)
    }
}

/// A graph that is filled from documents and asked for contexts.
#[derive(Clone, Debug)]
pub struct GraphRagIndexer {
    pub graph: KnowledgeGraph,
}

impl Default for GraphRagIndexer {
    /// An indexer with an empty graph.
    fn default() -> (indexer: GraphRagIndexer)
        ensures
            indexer.graph.well_formed(),
            indexer.graph@ == GraphView::empty(),
            indexer.graph@.edges().len() == 0,
    {
        GraphRagIndexer::new()
    }
}

/// A statement adds one relationship.
pub proof fn lemma_told_edges(g: GraphView, st: StatementView)
    requires
        g.finite(),
    ensures
        g.told(st).finite(),
        g.told(st).edges().len() == g.edges().len() + 1,
        g.told(st).edges().to_multiset() == g.edges().to_multiset().insert(told_relationship(st)),
{
    let middle = g.with_source(st.source).with_entity(
        st.target,
        st.target,
        "Target"@,
        st.description,
    );
    assert(middle.adj == g.adj);
    assert(middle.edges() == g.edges());
    law_relationship_added(middle, told_relationship(st));
}

/// Fewer lines make no more statements.
proof fn lemma_statements_prefix(ls: Seq<Seq<char>>, k: int)
    requires
        0 <= k <= ls.len(),
    ensures
        statements(ls.take(k)).len() <= statements(ls).len(),
    decreases ls.len() - k,
{
    if k < ls.len() {
        assert(ls.take(k + 1).drop_last() =~= ls.take(k));
        lemma_statements_prefix(ls, k + 1);
    } else {
        assert(ls.take(k) =~= ls);
    }
}

impl GraphRagIndexer {
    /// An indexer with an empty graph.
    pub fn new() -> (indexer: GraphRagIndexer)
        ensures
            indexer.graph.well_formed(),
            indexer.graph@ == GraphView::empty(),
            indexer.graph@.edges().len() == 0,
    {
        GraphRagIndexer { graph: KnowledgeGraph::new() }
    }

    /// Takes in a statement.
    fn tell(&mut self, st: Statement)
        requires
            old(self).graph.well_formed(),
            old(self).graph@.edges().len() < MAX_RELATIONSHIPS,
        ensures
            final(self).graph.well_formed(),
            final(self).graph@ == old(self).graph@.told(st@),
    {
        proof {
            self.graph.lemma_finite();
        }
        if !self.graph.entities.contains_key(st.source.as_str()) {
            let mut description = "Concept: ".to_owned();
            description.append(st.source.as_str());
            self.graph.add_entity(
                st.source.clone(),
                st.source.clone(),
                "Entity".to_owned(),
                description,
            );
        }
        self.graph.add_entity(
            st.target.clone(),
            st.target.clone(),
            "Target".to_owned(),
            st.description,
        );
        self.graph.add_relationship(st.source, st.target, st.relation, WEIGHT_ONE);
    }

    /// Takes in a document of statements, one to a line, in the form
    /// `Source -- Relation -- Target (Description)`, and finds the communities
    /// anew. Lines of another form are passed over.
    pub fn ingest_document(&mut self, doc: &str)
        requires
            old(self).graph.well_formed(),
            readable(doc@),
            old(self).graph@.edges().len() + statements(lines(doc@)).len() <= MAX_RELATIONSHIPS,
        ensures
            final(self).graph.well_formed(),
            final(self).graph@ == old(self).graph@.ingested(doc@),
            final(self).graph@.edges().len() == old(self).graph@.edges().len() + statements(
                lines(doc@),
            ).len(),
    {
        let ghost before = self.graph@;
        let ghost all = lines(doc@);
        let ls = lines_of(doc);
        let mut i: usize = 0;
        assert(before.told_all(statements(all.take(0))) == before);
        while i < ls.len()
            invariant
                self.graph.well_formed(),
                i <= ls.len(),
                slices(ls@) == all,
                all == lines(doc@),
                readable(doc@),
                before.edges().len() + statements(all).len() <= MAX_RELATIONSHIPS,
                self.graph@ == before.told_all(statements(all.take(i as int))),
                self.graph@.edges().len() == before.edges().len() + statements(
                    all.take(i as int),
                ).len(),
            decreases ls.len() - i,
        {
            proof {
                self.graph.lemma_finite();
                assert(slices(ls@)[i as int] == ls[i as int]@);
                assert(slices(ls@).len() == ls@.len());
                assert(readable_line(all[i as int]));
                assert(all.take(i + 1).drop_last() =~= all.take(i as int));
                assert(all.take(i + 1).last() == all[i as int]);
                lemma_statements_prefix(all, i + 1);
            }
            match read_line(ls[i]) {
                Reading::Told(st) => {
                    proof {
                        let sts = statements(all.take(i as int));
                        assert(sts.push(st@).drop_last() =~= sts);
                        lemma_told_edges(self.graph@, st@);
                    }
                    self.tell(st);
                },
                _ => {},
            }
            i += 1;
        }
        assert(all.take(ls.len() as int) =~= all) by {
            assert(slices(ls@).len() == ls@.len());
        }
        self.graph.run_community_detection(INDEX_SWEEPS);
    }

    /// The context for a query. A query that contains "summary" or "themes", in
    /// upper or lower case, is answered with all communities; any other with a
    /// walk from the entity that it speaks of.
    pub fn retrieve_context(&self, query: &str) -> (context: String)
        requires
            self.graph.well_formed(),
        ensures
            context@ == self.graph@.context(lowercase(query@), self.graph@.lowered_ids()),
            is_ascii_chars(query@) ==> context@ == self.graph@.context(
                ascii_lowered(query@),
                self.graph@.lowered_ids(),
            ),
            is_ascii_chars(query@) && self.graph@.has_ascii_ids() ==> context@
                == self.graph@.context(ascii_lowered(query@), self.graph@.ascii_lowered_ids()),
    {
        proof {
            self.graph.lemma_finite();
            self.graph.entities.lemma_listing();
        }
        let query_lower = to_lowercase(query);
        let ids = self.graph.entities.keys();
        let mut lowered: Vec<String> = Vec::new();
        let mut i: usize = 0;
        while i < ids.len()
            invariant
                i <= ids.len(),
                texts(ids@) == self.graph@.ids(),
                lowered.len() == i,
                forall|k: int| 0 <= k < i ==> (#[trigger] lowered[k])@ == lowercase(texts(ids@)[k]),
                forall|k: int|
                    0 <= k < i && is_ascii_chars(#[trigger] texts(ids@)[k]) ==> lowercase(
                        texts(ids@)[k],
                    ) == ascii_lowered(texts(ids@)[k]),
            decreases ids.len() - i,
        {
            assert(texts(ids@)[i as int] == ids[i as int]@);
            lowered.push(to_lowercase(ids[i].as_str()));
            i += 1;
        }
        assert(texts(ids@).len() == ids.len());
        assert(texts(lowered@) =~= self.graph@.lowered_ids());
        proof {
            if self.graph@.has_ascii_ids() {
                let known = self.graph@.ids();
                assert forall|k: int| 0 <= k < known.len() implies lowercase(#[trigger] known[k])
                    == ascii_lowered(known[k]) by {
                    assert(known.contains(known[k]));
                    assert(self.graph@.entities.contains_key(known[k]));
                }
                assert(self.graph@.lowered_ids() =~= self.graph@.ascii_lowered_ids());
            }
        }
        self.graph.context_of(query_lower.as_str(), &lowered)
    }
}

} // verus!
