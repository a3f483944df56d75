//! What a walk finds, in which order, and what it tells.

use vstd::prelude::*;
use crate::edge_laws::lemma_flatten_contains;
use crate::model::{GraphView, RelationshipView};
use crate::traversal::{
    discovered, lemma_discovered_extends, lemma_expanded_contains,
    lemma_expanded_extends, lemma_frontier,
};

verus! {

/// Before the first hop only the start is found.
pub proof fn law_walk_begins_at_its_start(g: GraphView, start: Seq<char>)
    ensures
        g.reachable(start, 0) == seq![start],
{
}

/// One more hop finds the targets of all relationships that are stored under
/// what was found before, and nothing else.
pub proof fn law_hop_follows_relationships(g: GraphView, start: Seq<char>, hops: nat, t: Seq<char>)
    ensures
        g.reachable(start, hops + 1).contains(t) <==> g.reachable(start, hops).contains(t)
            || exists|id: Seq<char>, k: int|
            g.reachable(start, hops).contains(id) && g.adj.contains_key(id) && 0 <= k
                < g.adj[id].len() && #[trigger] g.adj[id][k].target == t,
{
    let before = g.frontier(start, hops);
    let known = before.known;
    lemma_frontier(g, start, hops);
    lemma_expanded_contains(g, known, before.from, known.len() as int, t);
    if g.reachable(start, hops + 1).contains(t) && !known.contains(t) {
        let i = choose|i: int| before.from <= i < known.len() && g.leads(#[trigger] known[i], t);
        let k = choose|k: int|
            0 <= k < g.outgoing(known[i]).len() && #[trigger] g.outgoing(known[i])[k].target == t;
        assert(known.contains(known[i]));
        assert(g.adj[known[i]][k].target == t);
    }
    if exists|id: Seq<char>, k: int|
        known.contains(id) && g.adj.contains_key(id) && 0 <= k < g.adj[id].len()
            && #[trigger] g.adj[id][k].target == t {
        let (id, k) = choose|id: Seq<char>, k: int|
            known.contains(id) && g.adj.contains_key(id) && 0 <= k < g.adj[id].len()
                && #[trigger] g.adj[id][k].target == t;
        let i = choose|i: int| 0 <= i < known.len() && known[i] == id;
        assert(g.outgoing(id)[k].target == t);
        assert(g.leads(known[i], t));
        if i < before.from {
            assert(known.contains(t));
        }
    }
}

proof fn lemma_discovered_order(
    known: Seq<Seq<char>>,
    edges: Seq<RelationshipView>,
    i: int,
    j: int,
) -> (k: int)
    requires
        known.len() <= i < j < discovered(known, edges).len(),
    ensures
        0 <= k < edges.len(),
        edges[k].target == discovered(known, edges)[i],
        forall|m: int|
            0 <= m < edges.len() && #[trigger] edges[m].target == discovered(known, edges)[j]
                ==> k < m,
    decreases edges.len(),
{
    let fewer = edges.drop_last();
    let last = edges.len() - 1;
    let so_far = discovered(known, fewer);
    let all = discovered(known, edges);
    lemma_discovered_extends(known, fewer);
    if j < so_far.len() {
        let k = lemma_discovered_order(known, fewer, i, j);
        assert(edges[k] == fewer[k]);
        assert forall|m: int| 0 <= m < edges.len() && #[trigger] edges[m].target
            == all[j] implies k < m by {
            if m < last {
                assert(fewer[m].target == so_far[j]);
            }
        }
        k
    } else {
        assert(all[i] == so_far[i]);
        assert(so_far.contains(so_far[i]));
        let k = lemma_discovered_new(known, fewer, i);
        assert(edges[k] == fewer[k]);
        assert forall|m: int| 0 <= m < edges.len() && #[trigger] edges[m].target
            == all[j] implies k < m by {
            if m < last {
                let t = all[j];
                assert(fewer[m].target == t);
                assert(known.contains(t) || so_far.contains(t));
                assert(all[j] == edges.last().target);
            }
        }
        k
    }
}

/// What was discovered is the target of some relationship, and was not known.
proof fn lemma_discovered_new(known: Seq<Seq<char>>, edges: Seq<RelationshipView>, i: int) -> (k:
    int)
    requires
        known.len() <= i < discovered(known, edges).len(),
    ensures
        0 <= k < edges.len(),
        edges[k].target == discovered(known, edges)[i],
        !known.contains(discovered(known, edges)[i]),
    decreases edges.len(),
{
    let fewer = edges.drop_last();
    let so_far = discovered(known, fewer);
    let all = discovered(known, edges);
    lemma_discovered_extends(known, fewer);
    if i < so_far.len() {
        let k = lemma_discovered_new(known, fewer, i);
        assert(edges[k] == fewer[k]);
        assert(all[i] == so_far[i]);
        k
    } else {
        if known.contains(all[i]) {
            assert(so_far.contains(all[i]));
        }
        edges.len() - 1
    }
}

proof fn lemma_expanded_order(
    g: GraphView,
    known: Seq<Seq<char>>,
    from: int,
    to: int,
    i: int,
    j: int,
) -> (parent: (int, int))
    requires
        known.len() <= i < j < g.expanded(known, from, to).len(),
    ensures
        ({
            let all = g.expanded(known, from, to);
            let (p, k) = parent;
            &&& from <= p < to
            &&& 0 <= k < g.outgoing(known[p]).len()
            &&& g.outgoing(known[p])[k].target == all[i]
            &&& forall|q: int, m: int|
                from <= q < to && 0 <= m < g.outgoing(known[q]).len() && #[trigger] g.outgoing(
                    known[q],
                )[m].target == all[j] ==> p < q || (p == q && k < m)
        }),
    decreases to - from,
{
    if to <= from {
        (0, 0)
    } else {
        let mid = g.expanded(known, from, to - 1);
        let edges = g.outgoing(known[to - 1]);
        let all = g.expanded(known, from, to);
        lemma_expanded_extends(g, known, from, to - 1);
        lemma_discovered_extends(mid, edges);
        assert forall|n: int| 0 <= n < mid.len() implies all[n] == mid[n] by {
            assert(mid =~= all.take(mid.len() as int));
        }
        if j < mid.len() {
            let (p, k) = lemma_expanded_order(g, known, from, to - 1, i, j);
            (p, k)
        } else {
            let other = lemma_discovered_new(mid, edges, j);
            assert forall|q: int, m: int|
                from <= q < to && 0 <= m < g.outgoing(known[q]).len() && #[trigger] g.outgoing(
                    known[q],
                )[m].target == all[j] implies q == to - 1 by {
                if q < to - 1 {
                    lemma_expanded_contains(g, known, from, to - 1, all[j]);
                    assert(g.leads(known[q], all[j]));
                    assert(mid.contains(all[j]));
                }
            }
            if i < mid.len() {
                let (p, k) = lemma_expanded_parent(g, known, from, to - 1, i);
                (p, k)
            } else {
                let k = lemma_discovered_order(mid, edges, i, j);
                assert forall|q: int, m: int|
                    from <= q < to && 0 <= m < g.outgoing(known[q]).len() && #[trigger] g.outgoing(
                        known[q],
                    )[m].target == all[j] implies to - 1 < q || (to - 1 == q && k < m) by {
                    assert(q == to - 1);
                    assert(edges[m].target == all[j]);
                }
                (to - 1, k)
            }
        }
    }
}

proof fn lemma_expanded_parent(g: GraphView, known: Seq<Seq<char>>, from: int, to: int, i: int) -> (
parent: (int, int))
    requires
        known.len() <= i < g.expanded(known, from, to).len(),
    ensures
        ({
            let (p, k) = parent;
            &&& from <= p < to
            &&& 0 <= k < g.outgoing(known[p]).len()
            &&& g.outgoing(known[p])[k].target == g.expanded(known, from, to)[i]
        }),
    decreases to - from,
{
    if to <= from {
        (0, 0)
    } else {
        let mid = g.expanded(known, from, to - 1);
        let edges = g.outgoing(known[to - 1]);
        let all = g.expanded(known, from, to);
        lemma_discovered_extends(mid, edges);
        if i < mid.len() {
            assert(mid =~= all.take(mid.len() as int));
            assert(all[i] == mid[i]);
            lemma_expanded_parent(g, known, from, to - 1, i)
        } else {
            let k = lemma_discovered_new(mid, edges, i);
            (to - 1, k)
        }
    }
}

/// What one hop finds, it finds in the order of what it goes on from, and of the
/// relationships stored under each: of two identifiers new to the hop, the
/// first has a relationship to it that stands before all that lead to the
/// second.
pub proof fn law_hop_finds_in_order(g: GraphView, start: Seq<char>, hops: nat, i: int, j: int)
    requires
        g.reachable(start, hops).len() <= i < j < g.reachable(start, hops + 1).len(),
    ensures
        ({
            let near = g.reachable(start, hops);
            let far = g.reachable(start, hops + 1);
            exists|p: int, k: int|
                {
                    &&& 0 <= p < near.len()
                    &&& g.adj.contains_key(near[p])
                    &&& 0 <= k < g.adj[near[p]].len()
                    &&& #[trigger] g.adj[near[p]][k].target == far[i]
                    &&& forall|q: int, m: int|
                        0 <= q < near.len() && g.adj.contains_key(near[q]) && 0 <= m
                            < g.adj[near[q]].len() && #[trigger] g.adj[near[q]][m].target == far[j]
                            ==> p < q || (p == q && k < m)
                }
        }),
{
    let before = g.frontier(start, hops);
    let near = before.known;
    let far = g.reachable(start, hops + 1);
    lemma_frontier(g, start, hops);
    lemma_frontier(g, start, hops + 1);
    let (p, k) = lemma_expanded_order(g, near, before.from, near.len() as int, i, j);
    assert(g.adj[near[p]][k].target == far[i]);
    assert forall|q: int, m: int|
        0 <= q < near.len() && g.adj.contains_key(near[q]) && 0 <= m < g.adj[near[q]].len()
            && #[trigger] g.adj[near[q]][m].target == far[j] implies p < q || (p == q && k
        < m) by {
        assert(g.outgoing(near[q])[m].target == far[j]);
        if q < before.from {
            assert(g.leads(near[q], far[j]));
            assert(near.contains(far[j]));
            let n = choose|n: int| 0 <= n < near.len() && near[n] == far[j];
            assert(near =~= far.take(near.len() as int));
            assert(far[n] == far[j]);
        }
    }
}

/// What a walk tells, line by line: of everything it found, in the order in
/// which it was found, the entity, and, but for what the last hop found, the
/// relationships stored under it.
pub proof fn law_walk_tells_line_by_line(g: GraphView, start: Seq<char>, hops: nat)
    ensures
        ({
            let found = g.reachable(start, hops);
            let left = if hops == 0 {
                0
            } else {
                g.reachable(start, (hops - 1) as nat).len()
            };
            g.walk_context(start, hops) == Seq::new(
                found.len(),
                |i: int|
                    (if g.entities.contains_key(found[i]) {
                        seq![
                            "Entity: "@ + g.entities[found[i]].name + " ("@
                                + g.entities[found[i]].entity_type + ") - "@
                                + g.entities[found[i]].description,
                        ]
                    } else {
                        Seq::empty()
                    }) + (if i < left && g.adj.contains_key(found[i]) {
                        Seq::new(
                            g.adj[found[i]].len(),
                            |k: int|
                                "Relation: "@ + g.adj[found[i]][k].source + " --["@
                                    + g.adj[found[i]][k].relation + "]--> "@
                                    + g.adj[found[i]][k].target,
                        )
                    } else {
                        Seq::empty()
                    }),
            ).flatten()
        }),
{
    let reached = g.frontier(start, hops);
    let found = g.reachable(start, hops);
    let left = if hops == 0 {
        0
    } else {
        g.reachable(start, (hops - 1) as nat).len()
    };
    let told = Seq::new(
        found.len(),
        |i: int|
            (if g.entities.contains_key(found[i]) {
                seq![
                    "Entity: "@ + g.entities[found[i]].name + " ("@
                        + g.entities[found[i]].entity_type + ") - "@
                        + g.entities[found[i]].description,
                ]
            } else {
                Seq::empty()
            }) + (if i < left && g.adj.contains_key(found[i]) {
                Seq::new(
                    g.adj[found[i]].len(),
                    |k: int|
                        "Relation: "@ + g.adj[found[i]][k].source + " --["@
                            + g.adj[found[i]][k].relation + "]--> "@ + g.adj[found[i]][k].target,
                )
            } else {
                Seq::empty()
            }),
    );
    let lines = g.frontier_lines(reached);
    assert(left == reached.from);
    assert forall|i: int| 0 <= i < found.len() implies lines[i] == told[i] by {
        assert(lines[i] =~= told[i]);
    }
    assert(lines =~= told);
}

/// A walk tells in full of every entity that it finds.
pub proof fn law_walk_tells_of_entity(g: GraphView, start: Seq<char>, hops: nat, id: Seq<char>)
    requires
        g.reachable(start, hops).contains(id),
        g.entities.contains_key(id),
    ensures
        g.walk_context(start, hops).contains(
            "Entity: "@ + g.entities[id].name + " ("@ + g.entities[id].entity_type + ") - "@
                + g.entities[id].description,
        ),
{
    let line = "Entity: "@ + g.entities[id].name + " ("@ + g.entities[id].entity_type + ") - "@
        + g.entities[id].description;
    let reached = g.frontier(start, hops);
    let blocks = g.frontier_lines(reached);
    let i = choose|i: int| 0 <= i < reached.known.len() && reached.known[i] == id;
    assert(blocks[i][0] == line);
    assert(blocks[i].contains(line));
    lemma_flatten_contains(blocks, line);
}

/// A walk tells in full of every relationship that it can follow: of those
/// stored under what lies within one hop less.
pub proof fn law_walk_tells_of_relationship(
    g: GraphView,
    start: Seq<char>,
    hops: nat,
    id: Seq<char>,
    k: int,
)
    requires
        g.reachable(start, hops).contains(id),
        g.adj.contains_key(id),
        0 <= k < g.adj[id].len(),
    ensures
        g.walk_context(start, hops + 1).contains(
            "Relation: "@ + g.adj[id][k].source + " --["@ + g.adj[id][k].relation + "]--> "@
                + g.adj[id][k].target,
        ),
{
    let line = "Relation: "@ + g.adj[id][k].source + " --["@ + g.adj[id][k].relation + "]--> "@
        + g.adj[id][k].target;
    let near = g.frontier(start, hops);
    let reached = g.frontier(start, hops + 1);
    lemma_frontier(g, start, hops + 1);
    let blocks = g.frontier_lines(reached);
    let i = choose|i: int| 0 <= i < near.known.len() && near.known[i] == id;
    assert(near.known =~= reached.known.take(near.known.len() as int));
    assert(reached.known[i] == id);
    let heading = g.entity_lines(id);
    assert(blocks[i][heading.len() + k] == line);
    assert(blocks[i].contains(line));
    lemma_flatten_contains(blocks, line);
}

/// A walk tells of nothing else: every line is that of an entity that was found,
/// or of a relationship stored under what lies within one hop less.
pub proof fn law_walk_tells_of_nothing_else(
    g: GraphView,
    start: Seq<char>,
    hops: nat,
    line: Seq<char>,
)
    requires
        g.walk_context(start, hops).contains(line),
    ensures
        (exists|id: Seq<char>|
            g.reachable(start, hops).contains(id) && #[trigger] g.entities.contains_key(id) && line
                == "Entity: "@ + g.entities[id].name + " ("@ + g.entities[id].entity_type + ") - "@
                + g.entities[id].description) || (hops > 0 && exists|id: Seq<char>, k: int|
            g.reachable(start, (hops - 1) as nat).contains(id) && g.adj.contains_key(id) && 0 <= k
                < g.adj[id].len() && line == "Relation: "@ + (#[trigger] g.adj[id][k]).source
                + " --["@ + g.adj[id][k].relation + "]--> "@ + g.adj[id][k].target),
{
    let reached = g.frontier(start, hops);
    let blocks = g.frontier_lines(reached);
    lemma_frontier(g, start, hops);
    lemma_flatten_contains(blocks, line);
    let i = choose|i: int| 0 <= i < blocks.len() && (#[trigger] blocks[i]).contains(line);
    let id = reached.known[i];
    assert(reached.known.contains(id));
    let n = choose|n: int| 0 <= n < blocks[i].len() && blocks[i][n] == line;
    let heading = g.entity_lines(id);
    if n < heading.len() {
        assert(heading[n] == line);
        assert(g.entities.contains_key(id));
    } else {
        let near = g.frontier(start, (hops - 1) as nat);
        let k = n - heading.len();
        assert(i < reached.from);
        assert(near.known =~= reached.known.take(near.known.len() as int));
        assert(near.known[i] == id);
        assert(near.known.contains(id));
        assert(g.adj.contains_key(id));
        let edge = g.adj[id][k];
        assert(line == "Relation: "@ + edge.source + " --["@ + edge.relation + "]--> "@
            + edge.target);
    }
}

} // verus!
