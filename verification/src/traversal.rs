//! Breadth-first walks along the relationships of a graph.

use vstd::prelude::*;
use crate::edge_laws::lemma_flatten_contains;
use crate::model::{EntityView, GraphView, RelationshipView};

verus! {

/// The identifiers known after looking along some relationships: a target that
/// was not known yet is put behind the others.
pub open spec fn discovered(
    known: Seq<Seq<char>>,
    edges: Seq<RelationshipView>,
) -> Seq<Seq<char>>
    decreases edges.len(),
{
    if edges.len() == 0 {
        known
    } else {
        let so_far = discovered(known, edges.drop_last());
        if so_far.contains(edges.last().target) {
            so_far
        } else {
            so_far.push(edges.last().target)
        }
    }
}

/// How far a walk has come: the identifiers found, in the order in which they
/// were found, and how many of them lie before the last hop.
#[verifier::ext_equal]
pub struct Frontier {
    pub known: Seq<Seq<char>>,
    pub from: int,
}

/// The line that describes an entity.
pub open spec fn entity_line(entity: EntityView) -> Seq<char> {
    "Entity: "@ + entity.name + " ("@ + entity.entity_type + ") - "@ + entity.description
}

/// The line that describes a relationship.
pub open spec fn relation_line(edge: RelationshipView) -> Seq<char> {
    "Relation: "@ + edge.source + " --["@ + edge.relation + "]--> "@ + edge.target
}

pub open spec fn relation_lines(edges: Seq<RelationshipView>) -> Seq<Seq<char>> {
    edges.map_values(|e: RelationshipView| relation_line(e))
}

impl GraphView {
    /// The identifiers known after the outgoing relationships of those at the
    /// positions `from .. to` were followed.
    pub open spec fn expanded(self, known: Seq<Seq<char>>, from: int, to: int) -> Seq<Seq<char>>
        decreases to - from,
    {
        if to <= from {
            known
        } else {
            discovered(self.expanded(known, from, to - 1), self.outgoing(known[to - 1]))
        }
    }

    /// The frontier of a walk after a number of hops. Every hop follows the
    /// relationships of what the hop before has found.
    pub open spec fn frontier(self, start: Seq<char>, hops: nat) -> Frontier
        decreases hops,
    {
        if hops == 0 {
            Frontier { known: seq![start], from: 0 }
        } else {
            let before = self.frontier(start, (hops - 1) as nat);
            Frontier {
                known: self.expanded(before.known, before.from, before.known.len() as int),
                from: before.known.len() as int,
            }
        }
    }

    /// The identifiers within a number of hops, in the order of discovery.
    pub open spec fn reachable(self, start: Seq<char>, hops: nat) -> Seq<Seq<char>> {
        self.frontier(start, hops).known
    }

    /// The line of an entity; none for an identifier without an entity.
    pub open spec fn entity_lines(self, id: Seq<char>) -> Seq<Seq<char>> {
        if self.entities.contains_key(id) {
            seq![entity_line(self.entities[id])]
        } else {
            Seq::empty()
        }
    }

    /// What is said of one identifier: its entity, and, where the walk goes on
    /// from it, its outgoing relationships.
    pub open spec fn node_lines(self, id: Seq<char>, goes_on: bool) -> Seq<Seq<char>> {
        if goes_on {
            self.entity_lines(id) + relation_lines(self.outgoing(id))
        } else {
            self.entity_lines(id)
        }
    }

    /// What is said of the identifiers of a frontier, one after the other.
    pub open spec fn frontier_lines(self, reached: Frontier) -> Seq<Seq<Seq<char>>> {
        Seq::new(
            reached.known.len(),
            |i: int| self.node_lines(reached.known[i], i < reached.from),
        )
    }

    /// The lines collected by a walk over a number of hops.
    pub open spec fn walk_context(self, start: Seq<char>, hops: nat) -> Seq<Seq<char>> {
        self.frontier_lines(self.frontier(start, hops)).flatten()
    }
}

pub proof fn lemma_discovered_extends(known: Seq<Seq<char>>, edges: Seq<RelationshipView>)
    ensures
        known.is_prefix_of(discovered(known, edges)),
        known.no_duplicates() ==> discovered(known, edges).no_duplicates(),
        forall|t: Seq<char>|
            discovered(known, edges).contains(t) <==> known.contains(t) || exists|k: int|
                0 <= k < edges.len() && #[trigger] edges[k].target == t,
    decreases edges.len(),
{
    if edges.len() > 0 {
        let fewer = edges.drop_last();
        let so_far = discovered(known, fewer);
        let all = discovered(known, edges);
        lemma_discovered_extends(known, fewer);
        let t0 = edges.last().target;
        if !so_far.contains(t0) {
            assert(all[so_far.len() as int] == t0);
            assert(known =~= all.take(known.len() as int)) by {
                assert(known =~= so_far.take(known.len() as int));
            }
        }
        assert forall|t: Seq<char>| all.contains(t) <==> known.contains(t) || exists|k: int|
            0 <= k < edges.len() && #[trigger] edges[k].target == t by {
            if all.contains(t) {
                let i = choose|i: int| 0 <= i < all.len() && all[i] == t;
                if i < so_far.len() {
                    assert(so_far[i] == t);
                    assert(so_far.contains(t));
                    if !known.contains(t) {
                        let k = choose|k: int| 0 <= k < fewer.len() && #[trigger] fewer[k].target == t;
                        assert(edges[k].target == t);
                    }
                } else {
                    assert(edges[edges.len() - 1].target == t);
                }
            }
            if known.contains(t) {
                assert(so_far.contains(t));
                let i = choose|i: int| 0 <= i < so_far.len() && so_far[i] == t;
                assert(all[i] == t);
            }
            if exists|k: int| 0 <= k < edges.len() && #[trigger] edges[k].target == t {
                let k = choose|k: int| 0 <= k < edges.len() && #[trigger] edges[k].target == t;
                if k < fewer.len() {
                    assert(fewer[k].target == t);
                    assert(so_far.contains(t));
                    let i = choose|i: int| 0 <= i < so_far.len() && so_far[i] == t;
                    assert(all[i] == t);
                } else {
                    assert(all.contains(t));
                }
            }
        }
    } else {
        assert(known =~= known.take(known.len() as int));
    }
}

pub proof fn lemma_expanded_extends(g: GraphView, known: Seq<Seq<char>>, from: int, to: int)
    ensures
        known.is_prefix_of(g.expanded(known, from, to)),
        known.no_duplicates() ==> g.expanded(known, from, to).no_duplicates(),
    decreases to - from,
{
    if to > from {
        let mid = g.expanded(known, from, to - 1);
        lemma_expanded_extends(g, known, from, to - 1);
        lemma_discovered_extends(mid, g.outgoing(known[to - 1]));
        let all = g.expanded(known, from, to);
        assert(known =~= all.take(known.len() as int)) by {
            assert(known =~= mid.take(known.len() as int));
            assert(mid =~= all.take(mid.len() as int));
        }
    } else {
        assert(known =~= known.take(known.len() as int));
    }
}

/// What a hop adds: the targets of the relationships that it follows.
pub proof fn lemma_expanded_contains(
    g: GraphView,
    known: Seq<Seq<char>>,
    from: int,
    to: int,
    t: Seq<char>,
)
    ensures
        g.expanded(known, from, to).contains(t) <==> known.contains(t) || exists|i: int|
            from <= i < to && g.leads(#[trigger] known[i], t),
    decreases to - from,
{
    if to > from {
        let mid = g.expanded(known, from, to - 1);
        lemma_expanded_contains(g, known, from, to - 1, t);
        let edges = g.outgoing(known[to - 1]);
        lemma_discovered_extends(mid, edges);
        if g.expanded(known, from, to).contains(t) && !known.contains(t) {
            if mid.contains(t) {
                let i = choose|i: int| from <= i < to - 1 && g.leads(#[trigger] known[i], t);
                assert(g.leads(known[i], t));
            } else {
                assert(g.leads(known[to - 1], t));
            }
        }
        if exists|i: int| from <= i < to && g.leads(#[trigger] known[i], t) {
            let i = choose|i: int| from <= i < to && g.leads(#[trigger] known[i], t);
            if i == to - 1 {
                assert(exists|k: int| 0 <= k < edges.len() && #[trigger] edges[k].target == t);
            } else {
                assert(mid.contains(t));
            }
        }
    }
}

impl GraphView {
    /// Some outgoing relationship leads from one identifier to the other.
    pub open spec fn leads(self, a: Seq<char>, b: Seq<char>) -> bool {
        exists|k: int|
            0 <= k < self.outgoing(a).len() && #[trigger] self.outgoing(a)[k].target == b
    }

    /// A walk along outgoing relationships.
    pub open spec fn is_walk(self, walk: Seq<Seq<char>>) -> bool {
        &&& walk.len() > 0
        &&& forall|i: int| 0 <= i < walk.len() - 1 ==> self.leads(#[trigger] walk[i], walk[i + 1])
    }

    /// A walk of at most `hops` hops leads from one identifier to the other.
    pub open spec fn within(self, start: Seq<char>, hops: nat, end: Seq<char>) -> bool {
        exists|walk: Seq<Seq<char>>| #[trigger]
            self.is_walk(walk) && walk.len() <= hops + 1 && walk[0] == start && walk.last() == end
    }
}

proof fn lemma_walk_onward(
    g: GraphView,
    start: Seq<char>,
    hops: nat,
    middle: Seq<char>,
    end: Seq<char>,
)
    requires
        g.within(start, hops, middle),
        g.leads(middle, end),
    ensures
        g.within(start, hops + 1, end),
{
    let walk = choose|walk: Seq<Seq<char>>| #[trigger]
        g.is_walk(walk) && walk.len() <= hops + 1 && walk[0] == start && walk.last() == middle;
    let longer = walk.push(end);
    assert forall|i: int| 0 <= i < longer.len() - 1 implies g.leads(
        #[trigger] longer[i],
        longer[i + 1],
    ) by {
        if i < walk.len() - 1 {
            assert(g.leads(walk[i], walk[i + 1]));
        } else {
            assert(longer[i] == middle);
        }
    }
    assert(g.is_walk(longer));
}

proof fn lemma_walk_further(g: GraphView, start: Seq<char>, hops: nat, end: Seq<char>)
    requires
        g.within(start, hops, end),
    ensures
        g.within(start, hops + 1, end),
{
    let walk = choose|walk: Seq<Seq<char>>| #[trigger]
        g.is_walk(walk) && walk.len() <= hops + 1 && walk[0] == start && walk.last() == end;
    assert(g.is_walk(walk));
}

/// An identifier within one more hop is within the hops before, or one
/// relationship away from such a one.
proof fn lemma_walk_back(g: GraphView, start: Seq<char>, hops: nat, end: Seq<char>) -> (middle: Seq<
    char,
>)
    requires
        g.within(start, hops + 1, end),
        !g.within(start, hops, end),
    ensures
        g.within(start, hops, middle),
        g.leads(middle, end),
{
    let walk = choose|walk: Seq<Seq<char>>| #[trigger]
        g.is_walk(walk) && walk.len() <= hops + 2 && walk[0] == start && walk.last() == end;
    if walk.len() <= hops + 1 {
        assert(g.within(start, hops, end));
    }
    let shorter = walk.drop_last();
    assert forall|i: int| 0 <= i < shorter.len() - 1 implies g.leads(
        #[trigger] shorter[i],
        shorter[i + 1],
    ) by {
        assert(g.leads(walk[i], walk[i + 1]));
    }
    assert(g.is_walk(shorter));
    assert(g.leads(walk[walk.len() - 2], walk[walk.len() - 1]));
    shorter.last()
}

/// The frontier of one hop begins with that of the hop before, and what lies
/// before its last hop has all its targets in it.
pub proof fn lemma_frontier(g: GraphView, start: Seq<char>, hops: nat)
    ensures
        ({
            let now = g.frontier(start, hops);
            &&& 0 <= now.from <= now.known.len()
            &&& now.known.len() > 0
            &&& now.known[0] == start
            &&& now.known.no_duplicates()
            &&& forall|i: int, t: Seq<char>|
                0 <= i < now.from && #[trigger] g.leads(now.known[i], t) ==> now.known.contains(t)
        }),
        hops > 0 ==> g.frontier(start, (hops - 1) as nat).known.is_prefix_of(
            g.frontier(start, hops).known,
        ),
    decreases hops,
{
    if hops > 0 {
        let before = g.frontier(start, (hops - 1) as nat);
        let now = g.frontier(start, hops);
        lemma_frontier(g, start, (hops - 1) as nat);
        lemma_expanded_extends(g, before.known, before.from, before.known.len() as int);
        assert forall|i: int| 0 <= i < before.known.len() implies now.known[i]
            == before.known[i] by {
            assert(before.known =~= now.known.take(before.known.len() as int));
        }
        assert forall|i: int, t: Seq<char>|
            0 <= i < now.from && #[trigger] g.leads(now.known[i], t) implies now.known.contains(
            t,
        ) by {
            lemma_expanded_contains(g, before.known, before.from, before.known.len() as int, t);
            assert(g.leads(before.known[i], t));
            if i < before.from {
                assert(before.known.contains(t));
            }
        }
    } else {
        assert(seq![start].no_duplicates());
    }
}

/// An identifier is found within `hops` hops exactly if a walk of at most that
/// many hops leads to it.
pub proof fn law_reachable_is_within_hops(
    g: GraphView,
    start: Seq<char>,
    hops: nat,
    id: Seq<char>,
)
    ensures
        g.reachable(start, hops).contains(id) <==> g.within(start, hops, id),
    decreases hops,
{
    let now = g.frontier(start, hops);
    if hops == 0 {
        assert(g.is_walk(seq![start]));
        assert(now.known[0] == start);
        if g.within(start, 0, id) {
            let walk = choose|walk: Seq<Seq<char>>| #[trigger]
                g.is_walk(walk) && walk.len() <= 1 && walk[0] == start && walk.last() == id;
            assert(walk.last() == walk[0]);
        }
        if now.known.contains(id) {
            let walk = seq![start];
            assert(g.is_walk(walk) && walk[0] == start && walk.last() == id);
        }
    } else {
        let less = (hops - 1) as nat;
        let before = g.frontier(start, less);
        lemma_frontier(g, start, less);
        lemma_frontier(g, start, hops);
        lemma_expanded_contains(g, before.known, before.from, before.known.len() as int, id);
        law_reachable_is_within_hops(g, start, less, id);
        if now.known.contains(id) {
            if before.known.contains(id) {
                lemma_walk_further(g, start, less, id);
            } else {
                let i = choose|i: int|
                    before.from <= i < before.known.len() && g.leads(#[trigger] before.known[i], id);
                assert(before.known.contains(before.known[i]));
                law_reachable_is_within_hops(g, start, less, before.known[i]);
                lemma_walk_onward(g, start, less, before.known[i], id);
            }
        }
        if g.within(start, hops, id) && !before.known.contains(id) {
            let middle = lemma_walk_back(g, start, less, id);
            law_reachable_is_within_hops(g, start, less, middle);
            let i = choose|i: int| 0 <= i < before.known.len() && before.known[i] == middle;
            assert(g.leads(before.known[i], id));
            if i < before.from {
                assert(before.known.contains(id));
            }
        }
    }
}

/// No identifier is found twice, and the start is found first.
pub proof fn law_reachable_found_once(g: GraphView, start: Seq<char>, hops: nat)
    ensures
        g.reachable(start, hops).no_duplicates(),
        g.reachable(start, hops).len() > 0,
        g.reachable(start, hops)[0] == start,
{
    lemma_frontier(g, start, hops);
}

/// What is within fewer hops is found first: the order of discovery is the
/// order of distance.
pub proof fn law_nearer_found_first(g: GraphView, start: Seq<char>, fewer: nat, hops: nat)
    requires
        fewer <= hops,
    ensures
        g.reachable(start, fewer).is_prefix_of(g.reachable(start, hops)),
    decreases hops,
{
    let a = g.reachable(start, fewer);
    let b = g.reachable(start, hops);
    if fewer < hops {
        let c = g.reachable(start, (hops - 1) as nat);
        law_nearer_found_first(g, start, fewer, (hops - 1) as nat);
        lemma_frontier(g, start, hops);
        assert(a =~= b.take(a.len() as int)) by {
            assert(a =~= c.take(a.len() as int));
            assert(c =~= b.take(c.len() as int));
        }
    } else {
        assert(a =~= b.take(a.len() as int));
    }
}

/// A walk that found nothing new in its last hop finds nothing more.
pub proof fn lemma_frontier_done(g: GraphView, start: Seq<char>, hops: nat, more: nat)
    requires
        hops <= more,
        g.frontier(start, hops).from == g.frontier(start, hops).known.len(),
    ensures
        g.frontier(start, more) == g.frontier(start, hops),
    decreases more,
{
    if hops < more {
        lemma_frontier_done(g, start, hops, (more - 1) as nat);
    }
}

impl GraphView {
    /// The line of some entity within the hops.
    pub open spec fn tells_of_entity(self, start: Seq<char>, hops: nat, line: Seq<char>) -> bool {
        exists|id: Seq<char>| #[trigger]
            self.within(start, hops, id) && self.entities.contains_key(id) && line == entity_line(
                self.entities[id],
            )
    }

    /// The line of some relationship that a walk within the hops can follow.
    pub open spec fn tells_of_relation(self, start: Seq<char>, hops: nat, line: Seq<char>) -> bool {
        exists|id: Seq<char>, k: int|
            hops > 0 && self.within(start, (hops - 1) as nat, id) && 0 <= k < self.outgoing(id).len()
                && line == relation_line(#[trigger] self.outgoing(id)[k])
    }
}

/// The lines of a walk are those of the entities within the hops, and those of
/// the relationships that lead on from identifiers with hops to spare: all of
/// them, and no others.
pub proof fn law_walk_context_lines(g: GraphView, start: Seq<char>, hops: nat, line: Seq<char>)
    ensures
        g.walk_context(start, hops).contains(line) <==> g.tells_of_entity(start, hops, line)
            || g.tells_of_relation(start, hops, line),
{
    let now = g.frontier(start, hops);
    let blocks = g.frontier_lines(now);
    lemma_frontier(g, start, hops);
    lemma_flatten_contains(blocks, line);
    if g.walk_context(start, hops).contains(line) {
        let i = choose|i: int| 0 <= i < blocks.len() && (#[trigger] blocks[i]).contains(line);
        let id = now.known[i];
        assert(now.known.contains(id));
        law_reachable_is_within_hops(g, start, hops, id);
        let k = choose|k: int| 0 <= k < blocks[i].len() && blocks[i][k] == line;
        let heading = g.entity_lines(id);
        if k < heading.len() {
            assert(heading[k] == line);
            assert(g.tells_of_entity(start, hops, line));
        } else {
            assert(i < now.from);
            lemma_going_on(g, start, hops, i);
            let edges = g.outgoing(id);
            assert(relation_lines(edges)[k - heading.len()] == line);
            assert(line == relation_line(edges[k - heading.len()]));
            assert(g.tells_of_relation(start, hops, line));
        }
    }
    if g.tells_of_entity(start, hops, line) {
        let id = choose|id: Seq<char>| #[trigger]
            g.within(start, hops, id) && g.entities.contains_key(id) && line == entity_line(
                g.entities[id],
            );
        law_reachable_is_within_hops(g, start, hops, id);
        let i = choose|i: int| 0 <= i < now.known.len() && now.known[i] == id;
        assert(blocks[i][0] == line);
        assert(blocks[i].contains(line));
    }
    if g.tells_of_relation(start, hops, line) {
        let (id, k) = choose|id: Seq<char>, k: int|
            hops > 0 && g.within(start, (hops - 1) as nat, id) && 0 <= k < g.outgoing(id).len()
                && line == relation_line(#[trigger] g.outgoing(id)[k]);
        let before = g.frontier(start, (hops - 1) as nat);
        law_reachable_is_within_hops(g, start, (hops - 1) as nat, id);
        let i = choose|i: int| 0 <= i < before.known.len() && before.known[i] == id;
        assert(now.known[i] == id) by {
            assert(before.known =~= now.known.take(before.known.len() as int));
        }
        let heading = g.entity_lines(id);
        assert(blocks[i][heading.len() + k] == line);
        assert(blocks[i].contains(line));
    }
}

/// An identifier from which the walk goes on is within one hop less.
proof fn lemma_going_on(g: GraphView, start: Seq<char>, hops: nat, i: int)
    requires
        0 <= i < g.frontier(start, hops).from,
    ensures
        hops > 0,
        g.within(start, (hops - 1) as nat, g.frontier(start, hops).known[i]),
{
    let now = g.frontier(start, hops);
    let before = g.frontier(start, (hops - 1) as nat);
    lemma_frontier(g, start, hops);
    assert(before.known =~= now.known.take(before.known.len() as int));
    assert(before.known[i] == now.known[i]);
    assert(before.known.contains(now.known[i]));
    law_reachable_is_within_hops(g, start, (hops - 1) as nat, now.known[i]);
}

} // verus!
