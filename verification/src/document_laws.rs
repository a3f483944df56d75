//! What taking in documents does to a graph.

use vstd::prelude::*;
use crate::collation::lemma_in_order;
use crate::cutting::{
    lemma_position_from, lemma_position_is, lines, newline, occurs_at, position,
};
use crate::document::{statements, StatementView};
use crate::graph::WEIGHT_ONE;
use crate::graph_laws::{
    law_community_numbers_are_entities, law_detection_idempotent, law_detection_keeps_the_rest,
    lemma_ids,
};
use crate::indexer::{lemma_told_edges, told_relationship, INDEX_SWEEPS};
use crate::model::{EntityView, GraphView, RelationshipView};

verus! {

/// A statement makes both of its ends known, stores its relationship behind the
/// others of its source, and describes its target.
pub proof fn law_statement_is_taken_in(g: GraphView, st: StatementView)
    ensures
        g.told(st).entities.contains_key(st.source),
        g.told(st).entities.contains_key(st.target),
        g.told(st).outgoing(st.source) == g.outgoing(st.source).push(told_relationship(st)),
        g.told(st).entities[st.target].name == st.target,
        g.told(st).entities[st.target].description == st.description,
        st.source != st.target && !g.entities.contains_key(st.source)
            ==> g.told(st).entities[st.source].description == "Concept: "@ + st.source,
{
}

/// A statement leaves all entities but its target as they are, and the
/// relationships of all sources but its own.
pub proof fn law_statement_keeps_the_rest(g: GraphView, st: StatementView, id: Seq<char>)
    ensures
        g.entities.contains_key(id) ==> g.told(st).entities.contains_key(id),
        g.entities.contains_key(id) && id != st.target ==> g.told(st).entities[id]
            == g.entities[id],
        id != st.source ==> g.told(st).outgoing(id) == g.outgoing(id),
{
}

pub proof fn lemma_told_all_keeps(g: GraphView, sts: Seq<StatementView>, id: Seq<char>)
    ensures
        g.entities.contains_key(id) ==> g.told_all(sts).entities.contains_key(id),
    decreases sts.len(),
{
    if sts.len() > 0 {
        lemma_told_all_keeps(g, sts.drop_last(), id);
        law_statement_keeps_the_rest(g.told_all(sts.drop_last()), sts.last(), id);
    }
}

/// Taking in a document loses no entity.
pub proof fn law_document_keeps_entities(g: GraphView, doc: Seq<char>, id: Seq<char>)
    ensures
        g.entities.contains_key(id) ==> g.ingested(doc).entities.contains_key(id),
{
    let sts = statements(lines(doc));
    lemma_told_all_keeps(g, sts, id);
    law_detection_keeps_the_rest(g.told_all(sts), INDEX_SWEEPS as nat, id);
    assert(g.told_all(sts).entities.dom().contains(id) == g.ingested(doc).entities.dom().contains(
        id,
    ));
}

/// The relationships that statements tell of.
pub open spec fn told_relationships(sts: Seq<StatementView>) -> Seq<RelationshipView> {
    sts.map_values(|st: StatementView| told_relationship(st))
}

proof fn lemma_told_all_edges(g: GraphView, sts: Seq<StatementView>)
    requires
        g.finite(),
    ensures
        g.told_all(sts).finite(),
        g.told_all(sts).edges().to_multiset() == g.edges().to_multiset().add(
            told_relationships(sts).to_multiset(),
        ),
        g.told_all(sts).edges().len() == g.edges().len() + sts.len(),
    decreases sts.len(),
{
    broadcast use vstd::seq_lib::group_to_multiset_ensures;

    if sts.len() > 0 {
        let fewer = sts.drop_last();
        lemma_told_all_edges(g, fewer);
        lemma_told_edges(g.told_all(fewer), sts.last());
        assert(told_relationships(sts) =~= told_relationships(fewer).push(
            told_relationship(sts.last()),
        ));
        assert(g.told_all(sts).edges().to_multiset() =~= g.edges().to_multiset().add(
            told_relationships(sts).to_multiset(),
        ));
    } else {
        assert(told_relationships(sts) =~= Seq::empty());
        assert(g.edges().to_multiset() =~= g.edges().to_multiset().add(
            told_relationships(sts).to_multiset(),
        ));
    }
}

/// Taking in a document adds one relationship for each of its statements, and
/// no others.
pub proof fn law_document_adds_its_relationships(g: GraphView, doc: Seq<char>)
    requires
        g.finite(),
    ensures
        g.ingested(doc).edges().to_multiset() == g.edges().to_multiset().add(
            told_relationships(statements(lines(doc))).to_multiset(),
        ),
        g.ingested(doc).edges().len() == g.edges().len() + statements(lines(doc)).len(),
{
    let sts = statements(lines(doc));
    lemma_told_all_edges(g, sts);
    law_detection_keeps_the_rest(g.told_all(sts), INDEX_SWEEPS as nat, Seq::empty());
}

proof fn lemma_told_all_ends(g: GraphView, sts: Seq<StatementView>, k: int)
    requires
        0 <= k < sts.len(),
    ensures
        g.told_all(sts).entities.contains_key(sts[k].source),
        g.told_all(sts).entities.contains_key(sts[k].target),
    decreases sts.len(),
{
    let fewer = sts.drop_last();
    let before = g.told_all(fewer);
    if k == sts.len() - 1 {
        law_statement_is_taken_in(before, sts.last());
    } else {
        lemma_told_all_ends(g, fewer, k);
        law_statement_keeps_the_rest(before, sts.last(), sts[k].source);
        law_statement_keeps_the_rest(before, sts.last(), sts[k].target);
    }
}

/// Both ends of every statement of a document are known once it was taken in.
pub proof fn law_document_makes_ends_known(g: GraphView, doc: Seq<char>, k: int)
    requires
        0 <= k < statements(lines(doc)).len(),
    ensures
        g.ingested(doc).entities.contains_key(statements(lines(doc))[k].source),
        g.ingested(doc).entities.contains_key(statements(lines(doc))[k].target),
{
    let sts = statements(lines(doc));
    lemma_told_all_ends(g, sts, k);
}

/// A document without statements only finds the communities anew.
pub proof fn law_document_without_statements(g: GraphView, doc: Seq<char>)
    requires
        statements(lines(doc)).len() == 0,
    ensures
        g.ingested(doc) == g.detected(INDEX_SWEEPS as nat),
{
}

/// After a document was taken in, the communities are up to date: detecting
/// them once more changes nothing, and their numbers are below the number of
/// entities.
pub proof fn law_document_leaves_communities_up_to_date(
    g: GraphView,
    doc: Seq<char>,
    id: Seq<char>,
)
    requires
        g.finite(),
    ensures
        g.ingested(doc).detected(INDEX_SWEEPS as nat) == g.ingested(doc),
        g.ingested(doc).entities.contains_key(id) ==> 0 <= g.ingested(
            doc,
        ).entities[id].community_id < g.ingested(doc).entities.len(),
{
    let before = g.told_all(statements(lines(doc)));
    let after = g.ingested(doc);
    lemma_told_all_edges(g, statements(lines(doc)));
    law_detection_idempotent(before, INDEX_SWEEPS as nat);
    law_detection_keeps_the_rest(before, INDEX_SWEEPS as nat, id);
    if after.entities.contains_key(id) {
        assert(before.entities.dom().contains(id));
        law_community_numbers_are_entities(before, INDEX_SWEEPS as nat, id);
        lemma_ids(before);
    }
}

/// A graph that could come from documents: every relationship is stored under
/// its own source, both of its ends are known, and it has a weight of one;
/// every entity is named as it is identified.
pub open spec fn is_documented(g: GraphView) -> bool {
    &&& g.finite()
    &&& forall|k: Seq<char>, i: int|
        g.adj.contains_key(k) && 0 <= i < g.adj[k].len() ==> {
            let edge = #[trigger] g.adj[k][i];
            &&& edge.source == k
            &&& g.entities.contains_key(edge.source)
            &&& g.entities.contains_key(edge.target)
            &&& edge.weight == WEIGHT_ONE
        }
    &&& forall|k: Seq<char>| #[trigger]
        g.entities.contains_key(k) ==> g.entities[k].id == k && g.entities[k].name == k
}

/// A statement keeps a graph one that could come from documents.
pub proof fn law_statement_keeps_documented(g: GraphView, st: StatementView)
    requires
        is_documented(g),
    ensures
        is_documented(g.told(st)),
{
    let h = g.told(st);
    assert forall|k: Seq<char>, i: int| h.adj.contains_key(k) && 0 <= i < h.adj[k].len() implies {
        let edge = #[trigger] h.adj[k][i];
        &&& edge.source == k
        &&& h.entities.contains_key(edge.source)
        &&& h.entities.contains_key(edge.target)
        &&& edge.weight == WEIGHT_ONE
    } by {
        if k == st.source && i == g.outgoing(k).len() {
            assert(h.adj[k][i] == told_relationship(st));
        } else {
            assert(h.adj[k][i] == g.adj[k][i]);
        }
    }
}

proof fn lemma_told_all_documented(g: GraphView, sts: Seq<StatementView>)
    requires
        is_documented(g),
    ensures
        is_documented(g.told_all(sts)),
    decreases sts.len(),
{
    if sts.len() > 0 {
        lemma_told_all_documented(g, sts.drop_last());
        law_statement_keeps_documented(g.told_all(sts.drop_last()), sts.last());
    }
}

/// So does detecting the communities.
pub proof fn law_detection_keeps_documented(g: GraphView, limit: nat)
    requires
        is_documented(g),
    ensures
        is_documented(g.detected(limit)),
{
    let h = g.detected(limit);
    assert(h.entities.dom() =~= g.entities.dom());
    assert forall|k: Seq<char>, i: int| h.adj.contains_key(k) && 0 <= i < h.adj[k].len() implies {
        let edge = #[trigger] h.adj[k][i];
        &&& edge.source == k
        &&& h.entities.contains_key(edge.source)
        &&& h.entities.contains_key(edge.target)
        &&& edge.weight == WEIGHT_ONE
    } by {
        let edge = g.adj[k][i];
        assert(g.entities.contains_key(edge.source) && g.entities.contains_key(edge.target));
    }
    assert forall|k: Seq<char>| #[trigger] h.entities.contains_key(k) implies h.entities[k].id == k
        && h.entities[k].name == k by {
        assert(g.entities.contains_key(k));
    }
}

/// The graph after documents were taken in, one after the other, starting from
/// none.
pub open spec fn from_documents(docs: Seq<Seq<char>>) -> GraphView
    decreases docs.len(),
{
    if docs.len() == 0 {
        GraphView::empty()
    } else {
        from_documents(docs.drop_last()).ingested(docs.last())
    }
}

/// The number of statements in some documents.
pub open spec fn statement_count(docs: Seq<Seq<char>>) -> nat
    decreases docs.len(),
{
    if docs.len() == 0 {
        0
    } else {
        statement_count(docs.drop_last()) + statements(lines(docs.last())).len()
    }
}

/// A graph built from documents alone has one relationship for each statement,
/// stored under its own source, between known entities, with a weight of one;
/// and every entity is named as it is identified.
pub proof fn law_graph_from_documents(docs: Seq<Seq<char>>)
    ensures
        is_documented(from_documents(docs)),
        from_documents(docs).edges().len() == statement_count(docs),
    decreases docs.len(),
{
    if docs.len() == 0 {
        let g = GraphView::empty();
        lemma_in_order(g.adj.dom());
        assert(g.edges() =~= Seq::empty());
    } else {
        let before = from_documents(docs.drop_last());
        law_graph_from_documents(docs.drop_last());
        lemma_told_all_documented(before, statements(lines(docs.last())));
        law_detection_keeps_documented(
            before.told_all(statements(lines(docs.last()))),
            INDEX_SWEEPS as nat,
        );
        law_document_adds_its_relationships(before, docs.last());
    }
}

/// The lines of two texts joined by a newline are those of the one and then
/// those of the other.
pub proof fn lemma_lines_joined(s: Seq<char>, t: Seq<char>)
    ensures
        lines(s + newline() + t) == lines(s) + lines(t),
    decreases s.len(),
{
    let nl = newline();
    let all = s + nl + t;
    lemma_position_from(s, nl, 0);
    match position(s, nl) {
        Some(p) => {
            assert forall|q: int| 0 <= q <= p implies occurs_at(all, nl, q) == occurs_at(
                s,
                nl,
                q,
            ) by {
                assert(all.subrange(q, q + 1) =~= s.subrange(q, q + 1));
            }
            lemma_position_is(all, nl, 0, p);
            lemma_lines_joined(s.skip(p + 1), t);
            assert(all.skip(p + 1) =~= s.skip(p + 1) + nl + t);
            assert(all.take(p) =~= s.take(p));
            assert(lines(all) =~= lines(s) + lines(t));
        },
        None => {
            let p = s.len() as int;
            assert(all.subrange(p, p + 1) =~= nl);
            assert forall|q: int| 0 <= q < p implies !#[trigger] occurs_at(all, nl, q) by {
                assert(all.subrange(q, q + 1) =~= s.subrange(q, q + 1));
                assert(!occurs_at(s, nl, q));
            }
            lemma_position_is(all, nl, 0, p);
            assert(all.take(p) =~= s);
            assert(all.skip(p + 1) =~= t);
            assert(lines(all) =~= lines(s) + lines(t));
        },
    }
}

proof fn lemma_statements_joined(ls: Seq<Seq<char>>, ms: Seq<Seq<char>>)
    ensures
        statements(ls + ms) == statements(ls) + statements(ms),
    decreases ms.len(),
{
    if ms.len() == 0 {
        assert(ls + ms =~= ls);
        assert(statements(ls) + statements(ms) =~= statements(ls));
    } else {
        lemma_statements_joined(ls, ms.drop_last());
        assert((ls + ms).drop_last() =~= ls + ms.drop_last());
        assert((ls + ms).last() == ms.last());
        assert(statements(ls + ms) =~= statements(ls) + statements(ms));
    }
}

proof fn lemma_told_all_joined(g: GraphView, a: Seq<StatementView>, b: Seq<StatementView>)
    ensures
        g.told_all(a + b) == g.told_all(a).told_all(b),
    decreases b.len(),
{
    if b.len() == 0 {
        assert(a + b =~= a);
    } else {
        lemma_told_all_joined(g, a, b.drop_last());
        assert((a + b).drop_last() =~= a + b.drop_last());
        assert((a + b).last() == b.last());
    }
}

/// Two graphs that differ in the communities of their entities alone.
pub open spec fn same_but_communities(g: GraphView, h: GraphView) -> bool {
    &&& g.adj == h.adj
    &&& g.entities.dom() == h.entities.dom()
    &&& forall|id: Seq<char>| #[trigger]
        g.entities.contains_key(id) ==> (EntityView { community_id: 0, ..g.entities[id] }) == (
        EntityView { community_id: 0, ..h.entities[id] })
}

proof fn lemma_told_same_but_communities(g: GraphView, h: GraphView, sts: Seq<StatementView>)
    requires
        same_but_communities(g, h),
    ensures
        same_but_communities(g.told_all(sts), h.told_all(sts)),
    decreases sts.len(),
{
    if sts.len() > 0 {
        let a = g.told_all(sts.drop_last());
        let b = h.told_all(sts.drop_last());
        let st = sts.last();
        lemma_told_same_but_communities(g, h, sts.drop_last());
        assert(a.entities.contains_key(st.source) == b.entities.contains_key(st.source)) by {
            assert(a.entities.dom().contains(st.source) == b.entities.dom().contains(st.source));
        }
        assert(a.told(st).entities.dom() =~= b.told(st).entities.dom());
        assert forall|id: Seq<char>| #[trigger] a.told(st).entities.contains_key(id) implies (
        EntityView { community_id: 0, ..a.told(st).entities[id] }) == (EntityView {
            community_id: 0,
            ..b.told(st).entities[id]
        }) by {
            let known = a.entities.contains_key(id);
        }
    }
}

/// What detection gives does not depend on the communities that were stored.
proof fn lemma_detected_same_but_communities(g: GraphView, h: GraphView, limit: nat)
    requires
        same_but_communities(g, h),
    ensures
        g.detected(limit) == h.detected(limit),
{
    assert forall|id: Seq<char>| g.detected(limit).entities.contains_key(
        id,
    ) implies #[trigger] g.detected(limit).entities[id] == h.detected(limit).entities[id] by {
        assert(g.entities.contains_key(id));
        assert(h.entities.dom().contains(id));
    }
    assert(g.detected(limit).entities.dom() =~= h.detected(limit).entities.dom());
    assert(g.detected(limit).entities =~= h.detected(limit).entities);
}

/// Taking in two documents, one after the other, gives the graph of both joined
/// by a newline.
pub proof fn law_documents_can_be_joined(g: GraphView, first: Seq<char>, second: Seq<char>)
    ensures
        g.ingested(first).ingested(second) == g.ingested(first + newline() + second),
{
    let a = statements(lines(first));
    let b = statements(lines(second));
    let sweeps = INDEX_SWEEPS as nat;
    lemma_lines_joined(first, second);
    lemma_statements_joined(lines(first), lines(second));
    lemma_told_all_joined(g, a, b);
    let plain = g.told_all(a);
    let numbered = plain.detected(sweeps);
    assert(numbered.entities.dom() =~= plain.entities.dom());
    assert forall|id: Seq<char>| #[trigger] numbered.entities.contains_key(id) implies (EntityView {
        community_id: 0,
        ..numbered.entities[id]
    }) == (EntityView { community_id: 0, ..plain.entities[id] }) by {
        law_detection_keeps_the_rest(plain, sweeps, id);
    }
    lemma_told_same_but_communities(numbered, plain, b);
    lemma_detected_same_but_communities(numbered.told_all(b), plain.told_all(b), sweeps);
}

} // verus!
