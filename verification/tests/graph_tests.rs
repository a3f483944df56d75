//! The knowledge graph on small graphs with known answers.

use graph_rag_engine::graph::{KnowledgeGraph, WEIGHT_ONE};
use graph_rag_engine::scoring::{Modularity, Share};
use graph_rag_engine::string_map::StringMap;

fn graph_of(ids: &[&str], edges: &[(&str, &str, i64)]) -> KnowledgeGraph {
    let mut g = KnowledgeGraph::new();
    for id in ids {
        g.add_entity(
            id.to_string(),
            format!("name of {id}"),
            "T".into(),
            format!("about {id}"),
        );
    }
    for (s, t, w) in edges {
        g.add_relationship(s.to_string(), t.to_string(), "r".into(), w * WEIGHT_ONE);
    }
    g
}

fn labels(g: &KnowledgeGraph) -> Vec<usize> {
    (0..g.entities.len())
        .map(|i| g.entities.value_at(i).community_id)
        .collect()
}

/// The modularity times the square of `two_m`, in units of one.
fn scaled(m: &Modularity) -> i128 {
    let one = WEIGHT_ONE as i128;
    m.shares
        .values()
        .map(|s| (s.inside / one) * (m.two_m / one) - (s.total / one) * (s.total / one))
        .sum()
}

fn partition(labels: &[(&str, usize)]) -> StringMap<usize> {
    let mut m = StringMap::new();
    for (id, c) in labels {
        m.insert(id.to_string(), *c);
    }
    m
}

const TRIANGLES: [(&str, &str, i64); 7] = [
    ("a", "b", 1),
    ("b", "c", 1),
    ("a", "c", 1),
    ("d", "e", 1),
    ("e", "f", 1),
    ("d", "f", 1),
    ("c", "d", 1),
];

const SIX: [&str; 6] = ["a", "b", "c", "d", "e", "f"];

#[test]
fn empty_graph() {
    let mut g = KnowledgeGraph::new();
    assert!(g.entities.is_empty() && g.adj.is_empty());
    g.run_community_detection(10);
    assert!(g.communities().is_empty());
    assert_eq!(g.two_m(), 0);
    assert!(g.modularity().shares.is_empty());
    assert!(KnowledgeGraph::default().entities.is_empty());
}

#[test]
fn entities_are_numbered_as_they_come() {
    let g = graph_of(&["c", "a", "b"], &[]);
    assert_eq!(g.entities.get("c").unwrap().community_id, 0);
    assert_eq!(g.entities.get("a").unwrap().community_id, 1);
    assert_eq!(g.entities.get("b").unwrap().community_id, 2);
}

#[test]
fn entity_is_replaced() {
    let mut g = graph_of(&["a", "b"], &[]);
    g.add_entity("a".into(), "x".into(), "y".into(), "z".into());
    assert_eq!(g.entities.len(), 2);
    let e = g.entities.get("a").unwrap();
    assert_eq!(
        (e.id.as_str(), e.name.as_str(), e.entity_type.as_str(), e.description.as_str()),
        ("a", "x", "y", "z")
    );
    assert_eq!(e.community_id, 2);
}

#[test]
fn new_entity_starts_alone() {
    let g = graph_of(&["a", "b", "c"], &[]);
    let parts = g.communities();
    assert_eq!(parts.len(), 3);
    assert!(parts.values().all(|members| members.len() == 1));
}

#[test]
fn relationships_are_kept_by_source_in_order() {
    let g = graph_of(&["a"], &[("a", "z", 1), ("b", "a", 2), ("a", "y", -3)]);
    assert_eq!(g.adj.keys(), &vec!["a", "b"]);
    let of_a: Vec<(&str, i64)> = g
        .adj
        .get("a")
        .unwrap()
        .iter()
        .map(|e| (e.target.as_str(), e.weight / WEIGHT_ONE))
        .collect();
    assert_eq!(of_a, vec![("z", 1), ("y", -3)]);
    assert_eq!(g.adj.get("b").unwrap()[0].relation, "r");
}

#[test]
fn detection_sweep_by_sweep() {
    let path = [("a", "b", 1), ("b", "c", 1), ("c", "d", 1), ("d", "e", 1)];
    let ids = ["a", "b", "c", "d", "e"];
    for (limit, expected) in [
        (0, vec![0, 1, 2, 3, 4]),
        (1, vec![1, 1, 1, 2, 3]),
        (2, vec![1, 1, 1, 1, 2]),
        (3, vec![1, 1, 1, 1, 1]),
        (10, vec![1, 1, 1, 1, 1]),
    ] {
        let mut g = graph_of(&ids, &path);
        g.run_community_detection(limit);
        assert_eq!(labels(&g), expected, "limit {limit}");
    }
}

#[test]
fn detection_visits_by_hash_of_identifier() {
    let mut g = graph_of(&["a", "b"], &[("a", "b", 1)]);
    g.run_community_detection(100);
    assert_eq!(labels(&g), vec![1, 1]);
}

#[test]
fn one_more_sweep_of_a_settled_partition_changes_nothing() {
    let path = [("a", "b", 1), ("b", "c", 1), ("c", "d", 1), ("d", "e", 1)];
    let mut g = graph_of(&["a", "b", "c", "d", "e"], &path);
    let enough = 4 * 5 + 5 * 4 / 2;
    g.run_community_detection(enough);
    let settled = labels(&g);
    g.run_community_detection(enough + 1);
    assert_eq!(labels(&g), settled);
    let found = scaled(&g.modularity());
    g.run_community_detection(0);
    assert!(found >= scaled(&g.modularity()));
}

#[test]
fn detection_goes_by_weight() {
    let ring = [
        ("a", "b", 3),
        ("b", "c", 1),
        ("c", "d", 3),
        ("d", "e", 1),
        ("e", "a", 1),
    ];
    let mut g = graph_of(&["a", "b", "c", "d", "e"], &ring);
    g.run_community_detection(100);
    assert_eq!(labels(&g), vec![1, 1, 2, 2, 1]);
}

#[test]
fn detection_with_negative_weights() {
    let mut g = graph_of(
        &["a", "b", "c", "d"],
        &[("a", "b", -1), ("b", "c", 2), ("a", "c", 1)],
    );
    g.run_community_detection(10);
    assert_eq!(labels(&g), vec![1, 1, 1, 3]);
}

#[test]
fn detection_splits_triangles_at_a_bridge() {
    let mut g = graph_of(&SIX, &TRIANGLES);
    g.run_community_detection(100);
    assert_eq!(labels(&g), vec![1, 1, 1, 2, 2, 2]);
    let parts = g.communities();
    assert_eq!(parts.len(), 2);
    assert_eq!(parts[&1], vec!["a", "b", "c"]);
    assert_eq!(parts[&2], vec!["d", "e", "f"]);
}

#[test]
fn isolated_entity_keeps_its_number() {
    let mut g = graph_of(&["m", "a", "z"], &[("a", "z", 1)]);
    g.run_community_detection(50);
    assert_eq!(g.entities.get("m").unwrap().community_id, 1);
    assert_eq!(
        g.entities.get("a").unwrap().community_id,
        g.entities.get("z").unwrap().community_id
    );
}

#[test]
fn detection_ignores_loops_and_unknown_entities() {
    let plain = graph_of(&SIX, &TRIANGLES);
    let mut more = TRIANGLES.to_vec();
    more.push(("a", "a", 90));
    more.push(("a", "nobody", 90));
    more.push(("nobody", "f", 90));
    let noisy = graph_of(&SIX, &more);
    assert_eq!(plain.two_m(), noisy.two_m());
    let (mut plain, mut noisy) = (plain, noisy);
    plain.run_community_detection(100);
    noisy.run_community_detection(100);
    assert_eq!(labels(&plain), labels(&noisy));
}

#[test]
fn detection_does_not_depend_on_order_of_storing() {
    let mut forward = graph_of(&SIX, &TRIANGLES);
    let mut ids = SIX.to_vec();
    ids.reverse();
    let mut edges = TRIANGLES.to_vec();
    edges.reverse();
    let mut backward = graph_of(&ids, &edges);
    forward.run_community_detection(7);
    backward.run_community_detection(7);
    assert_eq!(labels(&forward), labels(&backward));
}

#[test]
fn detection_keeps_the_rest_and_repeats() {
    let mut g = graph_of(&SIX, &TRIANGLES);
    g.run_community_detection(1);
    let once = labels(&g);
    assert_eq!(g.entities.get("e").unwrap().description, "about e");
    assert_eq!(g.adj.get("a").unwrap().len(), 2);
    g.run_community_detection(1);
    assert_eq!(labels(&g), once);
}

#[test]
fn cliques_are_found_with_one_sweep() {
    let mut edges = Vec::new();
    for group in [["a", "c", "e"], ["b", "d", "f"]] {
        for i in 0..3 {
            for j in 0..i {
                edges.push((group[i], group[j], 5));
            }
        }
    }
    let mut g = graph_of(&SIX, &edges);
    g.run_community_detection(1);
    let l = labels(&g);
    assert!(l[0] == l[2] && l[2] == l[4] && l[1] == l[3] && l[3] == l[5] && l[0] != l[1]);
}

#[test]
fn cliques_may_differ_in_weight() {
    let mut edges = Vec::new();
    for (group, weight) in [(["a", "c", "e"], 0), (["b", "d", "f"], 7)] {
        for i in 0..3 {
            for j in 0..i {
                edges.push((group[i], group[j], weight));
            }
        }
    }
    for limit in [1, 2, 50] {
        let mut g = graph_of(&SIX, &edges);
        g.run_community_detection(limit);
        let l = labels(&g);
        assert!(l[0] == l[2] && l[2] == l[4] && l[1] == l[3] && l[3] == l[5] && l[0] != l[1]);
    }
}

#[test]
fn modularity_in_exact_integers() {
    let mut g = graph_of(&SIX, &TRIANGLES);
    g.run_community_detection(100);
    let one = WEIGHT_ONE as i128;
    let m = g.modularity();
    assert_eq!(m.two_m, 14 * one);
    assert_eq!(m.two_m, g.two_m());
    assert_eq!(m.shares.len(), 2);
    assert_eq!(m.shares[&1], Share { inside: 6 * one, total: 7 * one });
    assert_eq!(m.shares[&2], Share { inside: 6 * one, total: 7 * one });
}

#[test]
fn modularity_of_any_partition() {
    let g = graph_of(&SIX, &TRIANGLES);
    let one = WEIGHT_ONE as i128;
    let m = g.modularity_of(&partition(&[
        ("a", 9),
        ("b", 9),
        ("c", 4),
        ("d", 4),
        ("e", 4),
        ("f", 9),
        ("elsewhere", 77),
    ]));
    assert_eq!(m.shares.len(), 2);
    assert_eq!(m.shares[&9], Share { inside: 2 * one, total: 6 * one });
    assert_eq!(m.shares[&4], Share { inside: 4 * one, total: 8 * one });
}

#[test]
fn parallel_relationships_are_added_up() {
    let g = graph_of(&["a", "b"], &[("a", "b", 2), ("b", "a", 5), ("a", "b", -1)]);
    let one = WEIGHT_ONE as i128;
    let m = g.modularity_of(&partition(&[("a", 0), ("b", 0)]));
    assert_eq!(m.two_m, 12 * one);
    assert_eq!(m.shares[&0], Share { inside: 12 * one, total: 12 * one });
}

#[test]
fn modularity_without_weight_looks_at_no_label() {
    let g = graph_of(&["a", "b", "c"], &[("a", "b", 3), ("b", "c", -3)]);
    let m = g.modularity_of(&StringMap::new());
    assert_eq!(m.two_m, 0);
    assert!(m.shares.is_empty());
}

#[test]
fn shares_make_up_modularity() {
    let mut g = graph_of(&SIX, &TRIANGLES);
    g.run_community_detection(100);
    let m = g.modularity();
    let single = partition(&[("a", 0), ("b", 1), ("c", 2), ("d", 3), ("e", 4), ("f", 5)]);
    let s = g.modularity_of(&single);
    assert_eq!(scaled(&m), 2 * (6 * 14 - 49));
    assert_eq!(scaled(&s), -(4 * 4 + 2 * 9));
    assert!(scaled(&m) >= scaled(&s));
}

#[test]
fn unsettled_partition_can_lose_modularity() {
    let ids = ["a400", "b2900", "c1000", "d10", "e3800", "f1900", "g1000", "h0"];
    let edges = [
        ("c1000", "a400", 1),
        ("c1000", "b2900", 1),
        ("d10", "a400", 1),
        ("d10", "b2900", 1),
        ("e3800", "d10", 1),
        ("f1900", "a400", 1),
        ("f1900", "b2900", 1),
        ("f1900", "e3800", 1),
        ("g1000", "a400", 1),
        ("g1000", "b2900", 1),
        ("g1000", "e3800", 1),
        ("h0", "f1900", 1),
    ];
    let mut g = graph_of(&ids, &edges);
    g.run_community_detection(1);
    assert_eq!(labels(&g), vec![2, 1, 1, 1, 3, 1, 1, 5]);
    let after = scaled(&g.modularity());
    g.run_community_detection(0);
    let single = scaled(&g.modularity());
    assert_eq!(after - single, -10);
    g.run_community_detection(100);
    assert_eq!(labels(&g), vec![1; 8]);
}

#[test]
fn descriptions_of_a_community() {
    let mut g = graph_of(&["b", "a", "c"], &[("a", "b", 1)]);
    g.run_community_detection(100);
    let c = g.entities.get("a").unwrap().community_id;
    assert_eq!(
        g.get_community_descriptions(c),
        vec!["name of a: about a", "name of b: about b"]
    );
    assert_eq!(g.get_community_descriptions(2), vec!["name of c: about c"]);
    let none: Vec<String> = Vec::new();
    assert_eq!(g.get_community_descriptions(99), none);
}

#[test]
fn communities_divide_the_entities() {
    let mut g = graph_of(&SIX, &TRIANGLES);
    g.run_community_detection(1);
    let parts = g.communities();
    let mut all: Vec<String> = parts.values().flatten().cloned().collect();
    all.sort();
    assert_eq!(all, SIX);
    for (c, members) in &parts {
        for id in members {
            assert_eq!(g.entities.get(id).unwrap().community_id, *c);
        }
    }
}

#[test]
fn walk_finds_nearer_entities_first() {
    let g = graph_of(
        &["a", "b", "c"],
        &[
            ("a", "c", 1),
            ("a", "b", 1),
            ("c", "d", 1),
            ("b", "d", 1),
            ("b", "a", 1),
            ("d", "e", 1),
        ],
    );
    assert_eq!(g.bfs_reachable("a", 0), vec!["a"]);
    assert_eq!(g.bfs_reachable("a", 1), vec!["a", "c", "b"]);
    assert_eq!(g.bfs_reachable("a", 2), vec!["a", "c", "b", "d"]);
    assert_eq!(g.bfs_reachable("a", usize::MAX), vec!["a", "c", "b", "d", "e"]);
    assert_eq!(g.bfs_reachable("nobody", 4), vec!["nobody"]);
    assert_eq!(g.bfs_reachable("d", 1), vec!["d", "e"]);
}

#[test]
fn search_tells_entities_and_relationships() {
    let g = graph_of(
        &["a", "b"],
        &[("a", "b", 1), ("a", "x", 1), ("b", "a", 1), ("x", "b", 1)],
    );
    let about_a = "Entity: name of a (T) - about a";
    let about_b = "Entity: name of b (T) - about b";
    assert_eq!(g.multi_hop_search("a", 0), vec![about_a]);
    assert_eq!(
        g.multi_hop_search("a", 1),
        vec![
            about_a,
            "Relation: a --[r]--> b",
            "Relation: a --[r]--> x",
            about_b
        ]
    );
    assert_eq!(
        g.multi_hop_search("a", 5),
        vec![
            about_a,
            "Relation: a --[r]--> b",
            "Relation: a --[r]--> x",
            about_b,
            "Relation: b --[r]--> a",
            "Relation: x --[r]--> b"
        ]
    );
    let none: Vec<String> = Vec::new();
    assert_eq!(g.multi_hop_search("nobody", 3), none);
    assert_eq!(
        g.multi_hop_search("x", 1),
        vec!["Relation: x --[r]--> b", about_b]
    );
}
