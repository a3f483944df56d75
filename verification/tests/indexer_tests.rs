//! The indexer: reading documents and answering queries.

use graph_rag_engine::document::{is_readable, read_line, Reading};
use graph_rag_engine::indexer::GraphRagIndexer;

fn indexed(doc: &str) -> GraphRagIndexer {
    let mut indexer = GraphRagIndexer::new();
    indexer.ingest_document(doc);
    indexer
}

fn told(line: &str) -> (String, String, String, String) {
    match read_line(line) {
        Reading::Told(st) => (st.source, st.relation, st.target, st.description),
        _ => panic!("no statement in {line}"),
    }
}

fn four(a: &str, b: &str, c: &str, d: &str) -> (String, String, String, String) {
    (a.into(), b.into(), c.into(), d.into())
}

const NO_MATCH: &str = "LOCAL CONTEXT: No matching entities found in knowledge graph for query.";

#[test]
fn statements_of_lines() {
    assert_eq!(told("A -- r -- B (about B)"), four("A", "r", "B", "about B"));
    assert_eq!(told("  A  --  r s  --  B  "), four("A", "r s", "B", "B related to A"));
    assert_eq!(told("A -- r -- B -- C (x)"), four("A", "r", "B", "B related to A"));
    assert_eq!(told("A -- r -- B ( a (b) c ) d"), four("A", "r", "B", "a (b"));
    assert_eq!(told("A -- r -- B (open"), four("A", "r", "B (open", "B (open related to A"));
    assert_eq!(told("A -- r -- B) shut"), four("A", "r", "B) shut", "B) shut related to A"));
    assert_eq!(told("A -- r -- (only)"), four("A", "r", "", "only"));
    assert_eq!(told("A --  -- B"), four("A", "", "B", "B related to A"));
    assert_eq!(told("Zoë -- kennt -- Žan (日本)"), four("Zoë", "kennt", "Žan", "日本"));
}

#[test]
fn lines_without_statements() {
    for line in ["", "   ", "A -- B", "A--r--B", "A - r - B", " -- r -- B", "A -- r --"] {
        assert!(matches!(read_line(line), Reading::Nothing), "line {line}");
    }
}

#[test]
fn parentheses_must_open_first() {
    assert!(matches!(read_line("A -- r -- B )x("), Reading::Unreadable));
    assert!(!is_readable("A -- r -- B\nA -- r -- B )x("));
    assert!(is_readable("A -- r -- B\n)( is no statement\n"));
    assert!(is_readable("A -- ) ( -- B (c)"));
    assert!(is_readable(""));
}

#[test]
fn document_fills_the_graph() {
    let x = indexed("A -- r -- B (about B)\nnoise\r\n\n  B -- s -- C  \r\nA -- t -- A\n");
    let g = &x.graph;
    assert_eq!(g.entities.keys(), &vec!["A", "B", "C"]);
    let a = g.entities.get("A").unwrap();
    assert_eq!((a.entity_type.as_str(), a.description.as_str()), ("Target", "A related to A"));
    let b = g.entities.get("B").unwrap();
    assert_eq!((b.entity_type.as_str(), b.description.as_str()), ("Target", "about B"));
    let c = g.entities.get("C").unwrap();
    assert_eq!((c.name.as_str(), c.description.as_str()), ("C", "C related to B"));
    assert_eq!(g.adj.get("A").unwrap().len(), 2);
    assert_eq!(g.adj.get("B").unwrap()[0].target, "C");
    assert_eq!(g.adj.get("B").unwrap()[0].weight, graph_rag_engine::graph::WEIGHT_ONE);
}

#[test]
fn source_is_described_by_default_and_then_kept() {
    let mut x = indexed("A -- r -- B");
    let a = x.graph.entities.get("A").unwrap();
    assert_eq!((a.entity_type.as_str(), a.description.as_str()), ("Entity", "Concept: A"));
    x.ingest_document("Z -- r -- A (the first letter)\nA -- r -- Q");
    let a = x.graph.entities.get("A").unwrap();
    assert_eq!((a.entity_type.as_str(), a.description.as_str()), ("Target", "the first letter"));
    assert_eq!(x.graph.entities.len(), 4);
    assert!(x.graph.entities.contains_key("B"));
}

#[test]
fn document_adds_one_relationship_for_each_statement() {
    let mut x = indexed("A -- r -- B\nA -- r -- B\nno statement");
    let count = |x: &GraphRagIndexer| -> usize {
        (0..x.graph.adj.len()).map(|s| x.graph.adj.value_at(s).len()).sum()
    };
    assert_eq!(count(&x), 2);
    x.ingest_document("nothing here");
    assert_eq!(count(&x), 2);
    x.ingest_document("B -- s -- A (x)");
    assert_eq!(count(&x), 3);
}

#[test]
fn document_finds_communities() {
    let x = indexed(
        "Alice -- works_at -- Google (c)\nGoogle -- founded_by -- LarryPage (f)\n\
         LarryPage -- went_to -- Stanford (u)\nBob -- member_of -- Stanford (p)",
    );
    for i in 0..5 {
        assert_eq!(x.graph.entities.value_at(i).community_id, 2);
    }
}

#[test]
fn only_summary_and_themes_ask_for_all_communities() {
    let x = indexed("Global -- r -- Theme (t)");
    assert!(x.retrieve_context("the global view").contains("Walk for 'Global'"));
    assert!(x.retrieve_context("one theme").contains("Walk for 'Theme'"));
    assert!(x.retrieve_context("two themes").starts_with("GLOBAL CONTEXT"));
}

#[test]
fn documents_can_be_joined() {
    let first = "A -- r -- B (b)\nC -- s -- A (a)";
    let second = "B -- t -- C\nno statement\nD -- r -- A (once more)\n";
    let mut apart = indexed(first);
    apart.ingest_document(second);
    let together = indexed(&format!("{first}\n{second}"));
    assert_eq!(format!("{:?}", apart.graph), format!("{:?}", together.graph));
}

#[test]
fn graph_from_documents_is_consistent() {
    let mut x = indexed("A -- r -- B (b)\nB -- r -- B\nA -- s -- C (c)");
    x.ingest_document("C -- r -- D (d)");
    let g = &x.graph;
    let mut count = 0;
    for s in 0..g.adj.len() {
        for edge in g.adj.value_at(s) {
            assert_eq!(&edge.source, g.adj.key_at(s));
            assert!(g.entities.contains_key(&edge.source));
            assert!(g.entities.contains_key(&edge.target));
            assert_eq!(edge.weight, graph_rag_engine::graph::WEIGHT_ONE);
            count += 1;
        }
    }
    assert_eq!(count, 4);
    for i in 0..g.entities.len() {
        let entity = g.entities.value_at(i);
        assert_eq!((&entity.id, &entity.name), (g.entities.key_at(i), g.entities.key_at(i)));
    }
}

#[test]
fn documents_leave_communities_up_to_date() {
    let mut x = indexed("A -- r -- B\nC -- r -- D\nB -- r -- C\nE -- r -- E");
    x.ingest_document("");
    let before = format!("{:?}", x.graph);
    for i in 0..x.graph.entities.len() {
        assert!(x.graph.entities.value_at(i).community_id < x.graph.entities.len());
    }
    x.graph.run_community_detection(100);
    assert_eq!(format!("{:?}", x.graph), before);
}

#[test]
fn local_context_in_full() {
    let x = indexed("A1 -- r -- B1 (b)\nB1 -- s -- C1 (c)");
    assert_eq!(
        x.retrieve_context("what of a1?"),
        "LOCAL CONTEXT (Entity Walk for 'A1'):\n\
         \x20 * Entity: A1 (Entity) - Concept: A1\n\
         \x20 * Relation: A1 --[r]--> B1\n\
         \x20 * Entity: B1 (Target) - b\n\
         \x20 * Relation: B1 --[s]--> C1\n\
         \x20 * Entity: C1 (Target) - c\n"
    );
}

#[test]
fn local_context_goes_three_hops() {
    let x = indexed("n1 -- r -- n2\nn2 -- r -- n3\nn3 -- r -- n4\nn4 -- r -- n5");
    let context = x.retrieve_context("n1");
    assert!(context.contains("Entity: n4 (Target)"));
    assert!(context.contains("Relation: n3 --[r]--> n4"));
    assert!(!context.contains("Entity: n5"));
    assert!(!context.contains("Relation: n4 --[r]--> n5"));
}

#[test]
fn global_context_in_full() {
    let x = indexed("A -- r -- B (b)\nC -- r -- D (d)");
    let low = x.graph.entities.get("A").unwrap().community_id;
    let high = x.graph.entities.get("C").unwrap().community_id;
    assert!(low < high);
    let expected = format!(
        "GLOBAL CONTEXT (Community Clusters):\n\
         Community Cluster {low}:\n  Members: A, B\n  Details:\n    - A: Concept: A\n    - B: b\n\
         Community Cluster {high}:\n  Members: C, D\n  Details:\n    - C: Concept: C\n    - D: d\n"
    );
    for query in ["summary", "the THEMES please", "a global summary of A", "SuMmArY"] {
        assert_eq!(x.retrieve_context(query), expected, "query {query}");
    }
}

#[test]
fn overview_tells_of_every_entity() {
    let x = indexed("A -- r -- B (b)\nB -- r -- C (c)\nX -- r -- Y (y)");
    let context = x.retrieve_context("themes");
    for line in ["A: Concept: A", "B: b", "C: c", "X: Concept: X", "Y: y"] {
        assert!(context.contains(line), "line {line}");
    }
}

#[test]
fn empty_graph_answers() {
    let x = GraphRagIndexer::default();
    assert_eq!(x.retrieve_context("summary"), "GLOBAL CONTEXT (Community Clusters):\n");
    assert_eq!(x.retrieve_context("anything"), NO_MATCH);
    assert_eq!(x.retrieve_context("global"), NO_MATCH);
    assert_eq!(x.retrieve_context("theme"), NO_MATCH);
    assert_eq!(x.retrieve_context(""), NO_MATCH);
}

#[test]
fn longest_identifier_wins() {
    let x = indexed("Ann -- r -- Anna (a)\nAnn -- r -- Joanna (j)");
    assert!(x.retrieve_context("about joanna").contains("(Entity Walk for 'Joanna')"));
    assert!(x.retrieve_context("about ANNA").contains("(Entity Walk for 'Anna')"));
    assert!(x.retrieve_context("about ann").contains("(Entity Walk for 'Ann')"));
    assert_eq!(x.retrieve_context("about an"), NO_MATCH);
}

#[test]
fn length_is_counted_in_bytes_and_ties_go_to_the_first() {
    let x = indexed("abc -- r -- ééx (e)\nabd -- r -- zzzz (z)");
    let query = "abd, abc, ééx and zzzz";
    assert!(x.retrieve_context(query).starts_with("LOCAL CONTEXT (Entity Walk for 'ééx'"));
    assert!(x.retrieve_context("abd abc").starts_with("LOCAL CONTEXT (Entity Walk for 'abc'"));
}

#[test]
fn case_is_ignored_beyond_ascii() {
    let x = indexed("ÄRGER -- r -- ΣΊΣΥΦΟΣ (s)");
    assert!(x.retrieve_context("so ein ärger").contains("Walk for 'ÄRGER'"));
    assert!(x.retrieve_context("ΣΊΣΥΦΟΣ").contains("Walk for 'ΣΊΣΥΦΟΣ'"));
}

#[test]
fn entity_without_identifier_is_never_the_start() {
    let x = indexed("A9 -- r -- (nameless)");
    assert!(x.graph.entities.contains_key(""));
    assert_eq!(x.retrieve_context("whatever"), NO_MATCH);
}

#[test]
fn context_from_given_lower_case() {
    let x = indexed("Left -- r -- Right (x)");
    let lowered = vec!["left".to_string(), "right".to_string()];
    assert_eq!(
        x.graph.context_of("go right", &lowered),
        x.retrieve_context("GO RIGHT")
    );
    let strange = vec!["up".to_string(), "down".to_string()];
    assert!(x.graph.context_of("go up", &strange).contains("Walk for 'Left'"));
    assert!(x.graph.context_of("themes", &strange).starts_with("GLOBAL CONTEXT"));
}
