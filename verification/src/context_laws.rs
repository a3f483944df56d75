//! What a context tells.

use vstd::prelude::*;
use crate::context::{ascending_numbers, bullets, separated, LOCAL_HOPS};
use crate::cutting::{contains_text, occurs_at};
use crate::graph_laws::law_communities_divide_entities;
use crate::model::GraphView;
use crate::partition::description_line;
use crate::text::decimal;
use crate::traversal::{entity_line, law_walk_context_lines};

verus! {

/// A text contains what a piece of it contains.
pub proof fn lemma_contains_in_piece(
    before: Seq<char>,
    piece: Seq<char>,
    behind: Seq<char>,
    pattern: Seq<char>,
)
    requires
        contains_text(piece, pattern),
    ensures
        contains_text(before + piece + behind, pattern),
{
    let p = choose|p: int| occurs_at(piece, pattern, p);
    let all = before + piece + behind;
    let q = before.len() + p;
    assert(all.subrange(q, q + pattern.len()) =~= piece.subrange(p, p + pattern.len()));
    assert(occurs_at(all, pattern, q));
}

proof fn lemma_contains_itself(s: Seq<char>)
    ensures
        contains_text(s, s),
{
    assert(s.subrange(0, s.len() as int) =~= s);
    assert(occurs_at(s, s, 0));
}

proof fn lemma_bullets_contain(lines: Seq<Seq<char>>, mark: Seq<char>, k: int)
    requires
        0 <= k < lines.len(),
    ensures
        contains_text(bullets(lines, mark), lines[k]),
    decreases lines.len(),
{
    let fewer = lines.drop_last();
    let head = bullets(fewer, mark);
    if k == lines.len() - 1 {
        lemma_contains_itself(lines[k]);
        lemma_contains_in_piece(head + mark, lines[k], "\n"@, lines[k]);
    } else {
        lemma_bullets_contain(fewer, mark, k);
        lemma_contains_in_piece(Seq::empty(), head, mark + lines.last() + "\n"@, lines[k]);
        assert(Seq::<char>::empty() + head + (mark + lines.last() + "\n"@) =~= bullets(lines, mark));
    }
}

/// A local context tells of every entity within its hops.
pub proof fn law_local_context_tells_of_entities(g: GraphView, start: Seq<char>, id: Seq<char>)
    requires
        g.within(start, LOCAL_HOPS as nat, id),
        g.entities.contains_key(id),
    ensures
        contains_text(g.local_context(start), entity_line(g.entities[id])),
{
    let hops = LOCAL_HOPS as nat;
    let line = entity_line(g.entities[id]);
    let lines = g.walk_context(start, hops);
    assert(g.tells_of_entity(start, hops, line));
    law_walk_context_lines(g, start, hops, line);
    let k = choose|k: int| 0 <= k < lines.len() && lines[k] == line;
    lemma_bullets_contain(lines, "  * "@, k);
    let head = "LOCAL CONTEXT (Entity Walk for '"@ + start + "'):\n"@;
    lemma_contains_in_piece(head, bullets(lines, "  * "@), Seq::empty(), line);
    assert(head + bullets(lines, "  * "@) + Seq::<char>::empty() =~= g.local_context(start));
}

/// The numbers of the communities are listed: each of them once, in ascending
/// order, and no others.
pub proof fn law_communities_are_listed(g: GraphView)
    requires
        g.finite(),
    ensures
        g.lists_communities(g.community_numbers()),
{
    let numbers = g.entities.dom().map(|id: Seq<char>| g.entities[id].community_id);
    g.entities.dom().lemma_map_finite(|id: Seq<char>| g.entities[id].community_id);
    let s = lemma_ascending_listing(numbers);
    assert forall|c: int| #[trigger] s.contains(c) <==> g.has_community(c) by {
        if numbers.contains(c) {
            let id = choose|id: Seq<char>|
                g.entities.dom().contains(id) && g.entities[id].community_id == c;
            assert(g.entities.contains_key(id));
        }
        if g.has_community(c) {
            let id = choose|id: Seq<char>| #[trigger]
                g.entities.contains_key(id) && g.entities[id].community_id == c;
            assert(g.entities.dom().contains(id));
        }
    }
    assert(g.lists_communities(s));
}

proof fn lemma_ascending_listing(numbers: Set<int>) -> (s: Seq<int>)
    requires
        numbers.finite(),
    ensures
        ascending_numbers(s),
        forall|c: int| #[trigger] s.contains(c) <==> numbers.contains(c),
    decreases numbers.len(),
{
    if numbers.len() == 0 {
        assert(numbers =~= Set::empty());
        Seq::empty()
    } else {
        let up_to = |a: int, b: int| a <= b;
        let largest = numbers.find_unique_maximal(up_to);
        numbers.find_unique_maximal_ensures(up_to);
        let fewer = numbers.remove(largest);
        let rest = lemma_ascending_listing(fewer);
        let s = rest.push(largest);
        assert forall|i: int, j: int| 0 <= i < j < s.len() implies s[i] < s[j] by {
            assert(rest.contains(s[i]));
            if j == rest.len() {
                assert(fewer.contains(s[i]));
                assert(up_to(largest, s[i]) ==> up_to(s[i], largest));
            } else {
                assert(rest.contains(s[j]));
            }
        }
        assert forall|c: int| #[trigger] s.contains(c) <==> numbers.contains(c) by {
            assert(rest.contains(c) <==> fewer.contains(c));
            if rest.contains(c) {
                let i = choose|i: int| 0 <= i < rest.len() && rest[i] == c;
                assert(s[i] == c);
            }
            assert(s[rest.len() as int] == largest);
        }
        s
    }
}

proof fn lemma_clusters_contain(g: GraphView, numbers: Seq<int>, k: int, pattern: Seq<char>)
    requires
        0 <= k < numbers.len(),
        contains_text(g.cluster(numbers[k]), pattern),
    ensures
        contains_text(g.clusters(numbers), pattern),
    decreases numbers.len(),
{
    let fewer = numbers.drop_last();
    let head = g.clusters(fewer);
    let tail = g.cluster(numbers.last());
    if k == numbers.len() - 1 {
        lemma_contains_in_piece(head, tail, Seq::empty(), pattern);
        assert(head + tail + Seq::<char>::empty() =~= g.clusters(numbers));
    } else {
        lemma_clusters_contain(g, fewer, k, pattern);
        lemma_contains_in_piece(Seq::empty(), head, tail, pattern);
        assert(Seq::<char>::empty() + head + tail =~= g.clusters(numbers));
    }
}

/// An overview tells of every entity.
pub proof fn law_overview_tells_of_every_entity(g: GraphView, id: Seq<char>)
    requires
        g.finite(),
        g.entities.contains_key(id),
    ensures
        contains_text(g.overview(), description_line(g.entities[id])),
{
    let c = g.entities[id].community_id;
    let line = description_line(g.entities[id]);
    let details = g.community_lines(c);
    law_communities_divide_entities(g, c, id);
    let k = choose|k: int| 0 <= k < g.members(c).len() && g.members(c)[k] == id;
    assert(details[k] == line);
    lemma_bullets_contain(details, "    - "@, k);
    let head = "Community Cluster "@ + decimal(c as nat) + ":\n"@ + "  Members: "@ + separated(
        g.member_names(c),
        ", "@,
    ) + "\n"@ + "  Details:\n"@;
    lemma_contains_in_piece(head, bullets(details, "    - "@), Seq::empty(), line);
    assert(head + bullets(details, "    - "@) + Seq::<char>::empty() =~= g.cluster(c));
    law_communities_are_listed(g);
    let numbers = g.community_numbers();
    assert(g.has_community(c));
    assert(numbers.contains(c));
    let m = choose|m: int| 0 <= m < numbers.len() && numbers[m] == c;
    lemma_clusters_contain(g, numbers, m, line);
    let title = "GLOBAL CONTEXT (Community Clusters):\n"@;
    lemma_contains_in_piece(title, g.clusters(numbers), Seq::empty(), line);
    assert(title + g.clusters(numbers) + Seq::<char>::empty() =~= g.overview());
}

} // verus!
