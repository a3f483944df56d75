//! What a query is answered.

use vstd::prelude::*;
use vstd::utf8::{encode_scalar, encode_utf8};
use crate::casing::{ascii_lowered, lowercase};
use crate::context::{asks_for_overview, bullets, law_start_unique, separated};
use crate::context_laws::{law_communities_are_listed, law_overview_tells_of_every_entity};
use crate::cutting::contains_text;
use crate::model::GraphView;
use crate::text::decimal;
use crate::text_laws::law_contained_text_has_two_sides;
use crate::walk_laws::{law_walk_tells_of_entity, law_walk_tells_of_relationship};

verus! {

proof fn lemma_some_bytes(s: Seq<char>)
    ensures
        encode_utf8(s).len() > 0 <==> s.len() > 0,
{
    if s.len() > 0 {
        assert(encode_scalar(s[0] as u32).len() > 0);
    }
}

/// The start for a query is an entity whose whole identifier, in lower case,
/// stands in it, with the most bytes in its identifier of all these, and the
/// first of several such.
pub proof fn law_start_is_longest_spoken_of(
    g: GraphView,
    query: Seq<char>,
    lowered: Seq<Seq<char>>,
    k: int,
)
    ensures
        g.is_start(query, lowered, k) <==> {
            &&& 0 <= k < g.ids().len()
            &&& g.ids()[k].len() > 0
            &&& contains_text(query, lowered[k])
            &&& forall|j: int|
                0 <= j < g.ids().len() && g.ids()[j].len() > 0 && contains_text(
                    query,
                    #[trigger] lowered[j],
                ) ==> encode_utf8(g.ids()[j]).len() < encode_utf8(g.ids()[k]).len() || (
                encode_utf8(g.ids()[j]).len() == encode_utf8(g.ids()[k]).len() && k <= j)
        },
{
    lemma_some_bytes(g.ids()[k]);
    if g.is_start(query, lowered, k) {
        assert forall|j: int|
            0 <= j < g.ids().len() && g.ids()[j].len() > 0 && contains_text(
                query,
                #[trigger] lowered[j],
            ) implies encode_utf8(g.ids()[j]).len() < encode_utf8(g.ids()[k]).len() || (
        encode_utf8(g.ids()[j]).len() == encode_utf8(g.ids()[k]).len() && k <= j) by {
            lemma_some_bytes(g.ids()[j]);
            assert(g.spoken_of(query, lowered, j));
        }
    } else if 0 <= k < g.ids().len() && g.ids()[k].len() > 0 && contains_text(query, lowered[k]) {
        assert(g.spoken_of(query, lowered, k));
        let j = choose|j: int| #[trigger]
            g.spoken_of(query, lowered, j) && !({
                let length = encode_utf8(g.ids()[k]).len();
                let other = encode_utf8(g.ids()[j]).len();
                other < length || (other == length && k <= j)
            });
        lemma_some_bytes(g.ids()[j]);
        assert(contains_text(query, lowered[j]));
    }
}

/// The first of the longest among the entities spoken of before a position.
proof fn lemma_best_before(
    g: GraphView,
    query: Seq<char>,
    lowered: Seq<Seq<char>>,
    to: int,
    j: int,
) -> (k: int)
    requires
        0 <= j < to <= g.ids().len(),
        g.spoken_of(query, lowered, j),
    ensures
        0 <= k < to,
        g.spoken_of(query, lowered, k),
        forall|i: int|
            0 <= i < to && #[trigger] g.spoken_of(query, lowered, i) ==> encode_utf8(
                g.ids()[i],
            ).len() < encode_utf8(g.ids()[k]).len() || (encode_utf8(g.ids()[i]).len()
                == encode_utf8(g.ids()[k]).len() && k <= i),
    decreases to,
{
    if exists|i: int| 0 <= i < to - 1 && #[trigger] g.spoken_of(query, lowered, i) {
        let i = choose|i: int| 0 <= i < to - 1 && #[trigger] g.spoken_of(query, lowered, i);
        let k = lemma_best_before(g, query, lowered, to - 1, i);
        if g.spoken_of(query, lowered, to - 1) && encode_utf8(g.ids()[to - 1]).len()
            > encode_utf8(g.ids()[k]).len() {
            to - 1
        } else {
            k
        }
    } else {
        j
    }
}

/// Where the whole identifier of an entity, in lower case, stands in a query,
/// there is a start for it, and its identifier has at least as many bytes.
pub proof fn law_start_exists(
    g: GraphView,
    query: Seq<char>,
    lowered: Seq<Seq<char>>,
    j: int,
) -> (k: int)
    requires
        0 <= j < g.ids().len(),
        g.ids()[j].len() > 0,
        contains_text(query, lowered[j]),
    ensures
        g.is_start(query, lowered, k),
        encode_utf8(g.ids()[j]).len() <= encode_utf8(g.ids()[k]).len(),
{
    lemma_some_bytes(g.ids()[j]);
    assert(g.spoken_of(query, lowered, j));
    let k = lemma_best_before(g, query, lowered, g.ids().len() as int, j);
    assert forall|i: int| #[trigger] g.spoken_of(query, lowered, i) implies ({
        let length = encode_utf8(g.ids()[k]).len();
        let other = encode_utf8(g.ids()[i]).len();
        other < length || (other == length && k <= i)
    }) by {
        assert(0 <= i < g.ids().len());
    }
    k
}

/// A query for an overview is one with the word `summary` or the word `themes`
/// in it.
pub proof fn law_overview_is_asked_for(query: Seq<char>)
    ensures
        asks_for_overview(query) <==> (exists|a: Seq<char>, b: Seq<char>|
            query == #[trigger] (a + "summary"@ + b)) || (exists|a: Seq<char>, b: Seq<char>|
            query == #[trigger] (a + "themes"@ + b)),
{
    law_contained_text_has_two_sides(query, "summary"@);
    law_contained_text_has_two_sides(query, "themes"@);
}

/// A query with `summary` or `themes` in it is answered with all communities.
pub proof fn law_overview_is_answered(
    g: GraphView,
    lowered: Seq<Seq<char>>,
    a: Seq<char>,
    b: Seq<char>,
)
    ensures
        g.context(a + "summary"@ + b, lowered) == "GLOBAL CONTEXT (Community Clusters):\n"@
            + g.clusters(g.community_numbers()),
        g.context(a + "themes"@ + b, lowered) == "GLOBAL CONTEXT (Community Clusters):\n"@
            + g.clusters(g.community_numbers()),
{
    law_overview_is_asked_for(a + "summary"@ + b);
    law_overview_is_asked_for(a + "themes"@ + b);
}

/// Any other query is answered with a walk of three hops from its start.
pub proof fn law_walk_is_answered(
    g: GraphView,
    query: Seq<char>,
    lowered: Seq<Seq<char>>,
    k: int,
)
    requires
        !exists|a: Seq<char>, b: Seq<char>| query == #[trigger] (a + "summary"@ + b),
        !exists|a: Seq<char>, b: Seq<char>| query == #[trigger] (a + "themes"@ + b),
        g.is_start(query, lowered, k),
    ensures
        g.context(query, lowered) == "LOCAL CONTEXT (Entity Walk for '"@ + g.ids()[k] + "'):\n"@
            + bullets(g.walk_context(g.ids()[k], 3), "  * "@),
{
    law_overview_is_asked_for(query);
    let chosen = choose|j: int| g.is_start(query, lowered, j);
    law_start_unique(g, query, lowered, k, chosen);
}

/// A query in which no identifier stands is answered that nothing was found.
pub proof fn law_nothing_is_answered(g: GraphView, query: Seq<char>, lowered: Seq<Seq<char>>)
    requires
        !exists|a: Seq<char>, b: Seq<char>| query == #[trigger] (a + "summary"@ + b),
        !exists|a: Seq<char>, b: Seq<char>| query == #[trigger] (a + "themes"@ + b),
        forall|j: int|
            0 <= j < g.ids().len() && g.ids()[j].len() > 0 ==> !contains_text(
                query,
                #[trigger] lowered[j],
            ),
    ensures
        g.context(query, lowered)
            == "LOCAL CONTEXT: No matching entities found in knowledge graph for query."@,
{
    law_overview_is_asked_for(query);
    assert forall|k: int| !g.is_start(query, lowered, k) by {
        law_start_is_longest_spoken_of(g, query, lowered, k);
    }
}

/// Lines are told one after the other, each with its mark before it and a
/// newline behind it.
pub proof fn law_bullets_go_line_by_line(lines: Seq<Seq<char>>, line: Seq<char>, mark: Seq<char>)
    ensures
        bullets(Seq::empty(), mark).len() == 0,
        bullets(lines.push(line), mark) == bullets(lines, mark) + mark + line + seq!['\n'],
{
    reveal_strlit("\n");
    assert(lines.push(line).drop_last() =~= lines);
    assert("\n"@ =~= seq!['\n']);
}

/// Parts are told one after the other, with the separator between them only.
pub proof fn law_separator_stands_between(
    parts: Seq<Seq<char>>,
    part: Seq<char>,
    separator: Seq<char>,
)
    ensures
        separated(Seq::empty(), separator).len() == 0,
        parts.len() == 0 ==> separated(parts.push(part), separator) == part,
        parts.len() > 0 ==> separated(parts.push(part), separator) == separated(parts, separator)
            + separator + part,
{
    assert(parts.push(part).drop_last() =~= parts);
}

/// Communities are told of one after the other: the number of each, the names
/// of its members, and what is told of them.
pub proof fn law_clusters_go_one_by_one(g: GraphView, numbers: Seq<int>, c: int)
    ensures
        g.clusters(Seq::empty()).len() == 0,
        g.clusters(numbers.push(c)) == g.clusters(numbers) + ("Community Cluster "@ + decimal(
            c as nat,
        ) + ":\n  Members: "@ + separated(g.member_names(c), ", "@) + "\n  Details:\n"@ + bullets(
            g.community_lines(c),
            "    - "@,
        )),
{
    reveal_strlit(":\n");
    reveal_strlit("  Members: ");
    reveal_strlit(":\n  Members: ");
    reveal_strlit("\n");
    reveal_strlit("  Details:\n");
    reveal_strlit("\n  Details:\n");
    assert(numbers.push(c).drop_last() =~= numbers);
    assert(":\n"@ + "  Members: "@ =~= ":\n  Members: "@);
    assert("\n"@ + "  Details:\n"@ =~= "\n  Details:\n"@);
    let names = separated(g.member_names(c), ", "@);
    let head = "Community Cluster "@ + decimal(c as nat);
    let details = bullets(g.community_lines(c), "    - "@);
    assert(head + ":\n"@ + "  Members: "@ =~= head + (":\n"@ + "  Members: "@));
    let middle = head + ":\n  Members: "@ + names;
    assert(middle + "\n"@ + "  Details:\n"@ =~= middle + ("\n"@ + "  Details:\n"@));
}

/// An overview tells of each community once, in ascending order of the numbers.
pub proof fn law_overview_tells_of_communities(g: GraphView, c: int, i: int, j: int)
    requires
        g.finite(),
    ensures
        (exists|k: int|
            0 <= k < g.community_numbers().len() && #[trigger] g.community_numbers()[k] == c)
            <==> exists|id: Seq<char>| #[trigger]
            g.entities.contains_key(id) && g.entities[id].community_id == c,
        0 <= i < j < g.community_numbers().len() ==> g.community_numbers()[i]
            < g.community_numbers()[j],
{
    let numbers = g.community_numbers();
    law_communities_are_listed(g);
    assert(numbers.contains(c) <==> g.has_community(c));
    assert(numbers.contains(c) <==> exists|k: int|
        0 <= k < numbers.len() && #[trigger] numbers[k] == c);
}

/// An overview tells in full of every entity: its name and its description.
pub proof fn law_overview_tells_of_entity_in_full(g: GraphView, id: Seq<char>)
    requires
        g.finite(),
        g.entities.contains_key(id),
    ensures
        exists|a: Seq<char>, b: Seq<char>|
            g.overview() == #[trigger] (a + (g.entities[id].name + ": "@
                + g.entities[id].description) + b),
{
    law_overview_tells_of_every_entity(g, id);
    law_contained_text_has_two_sides(
        g.overview(),
        g.entities[id].name + ": "@ + g.entities[id].description,
    );
}

/// A local context tells in full of every entity within three hops, and of
/// every relationship stored under what lies within two.
pub proof fn law_local_context_tells_in_full(
    g: GraphView,
    start: Seq<char>,
    id: Seq<char>,
    k: int,
)
    ensures
        g.reachable(start, 3).contains(id) && g.entities.contains_key(id) ==> exists|
            a: Seq<char>,
            b: Seq<char>,
        |
            g.local_context(start) == #[trigger] (a + ("  * Entity: "@ + g.entities[id].name + " ("@
                + g.entities[id].entity_type + ") - "@ + g.entities[id].description + "\n"@) + b),
        g.reachable(start, 2).contains(id) && g.adj.contains_key(id) && 0 <= k < g.adj[id].len()
            ==> exists|a: Seq<char>, b: Seq<char>|
            g.local_context(start) == #[trigger] (a + ("  * Relation: "@ + g.adj[id][k].source
                + " --["@ + g.adj[id][k].relation + "]--> "@ + g.adj[id][k].target + "\n"@) + b),
{
    reveal_strlit("  * ");
    reveal_strlit("Entity: ");
    reveal_strlit("Relation: ");
    reveal_strlit("  * Entity: ");
    reveal_strlit("  * Relation: ");
    let head = "LOCAL CONTEXT (Entity Walk for '"@ + start + "'):\n"@;
    let lines = g.walk_context(start, 3);
    if g.reachable(start, 3).contains(id) && g.entities.contains_key(id) {
        law_walk_tells_of_entity(g, start, 3, id);
        let line = "Entity: "@ + g.entities[id].name + " ("@ + g.entities[id].entity_type + ") - "@
            + g.entities[id].description;
        let whole = "  * Entity: "@ + g.entities[id].name + " ("@ + g.entities[id].entity_type
            + ") - "@ + g.entities[id].description + "\n"@;
        assert(whole =~= "  * "@ + line + "\n"@);
        let n = choose|n: int| 0 <= n < lines.len() && lines[n] == line;
        let (a, b) = lemma_bullet_stands(lines, "  * "@, n);
        assert(g.local_context(start) =~= (head + a) + whole + b);
    }
    if g.reachable(start, 2).contains(id) && g.adj.contains_key(id) && 0 <= k < g.adj[id].len() {
        law_walk_tells_of_relationship(g, start, 2, id, k);
        let line = "Relation: "@ + g.adj[id][k].source + " --["@ + g.adj[id][k].relation + "]--> "@
            + g.adj[id][k].target;
        let whole = "  * Relation: "@ + g.adj[id][k].source + " --["@ + g.adj[id][k].relation
            + "]--> "@ + g.adj[id][k].target + "\n"@;
        assert(whole =~= "  * "@ + line + "\n"@);
        let n = choose|n: int| 0 <= n < lines.len() && lines[n] == line;
        let (a, b) = lemma_bullet_stands(lines, "  * "@, n);
        assert(g.local_context(start) =~= (head + a) + whole + b);
    }
}

proof fn lemma_bullet_stands(lines: Seq<Seq<char>>, mark: Seq<char>, k: int) -> (sides: (
    Seq<char>,
    Seq<char>,
))
    requires
        0 <= k < lines.len(),
    ensures
        bullets(lines, mark) == sides.0 + (mark + lines[k] + "\n"@) + sides.1,
    decreases lines.len(),
{
    let fewer = lines.drop_last();
    if k == lines.len() - 1 {
        let none = Seq::<char>::empty();
        assert(bullets(lines, mark) =~= bullets(fewer, mark) + (mark + lines[k] + "\n"@) + none);
        (bullets(fewer, mark), none)
    } else {
        let (a, b) = lemma_bullet_stands(fewer, mark, k);
        let behind = b + mark + lines.last() + "\n"@;
        assert(bullets(lines, mark) =~= a + (mark + lines[k] + "\n"@) + behind);
        (a, behind)
    }
}

/// The identifiers in lower case stand in the order of the identifiers.
pub proof fn law_identifiers_in_lower_case(g: GraphView, k: int)
    ensures
        g.lowered_ids().len() == g.ids().len(),
        g.ascii_lowered_ids().len() == g.ids().len(),
        0 <= k < g.ids().len() ==> g.lowered_ids()[k] == lowercase(g.ids()[k])
            && g.ascii_lowered_ids()[k] == ascii_lowered(g.ids()[k]),
        g.has_ascii_ids() <==> forall|id: Seq<char>, i: int|
            g.entities.contains_key(id) && 0 <= i < id.len() ==> '\0' <= #[trigger] id[i] <= '\u{7f}',
{
    if g.has_ascii_ids() {
        assert forall|id: Seq<char>, i: int|
            g.entities.contains_key(id) && 0 <= i < id.len() implies '\0' <= #[trigger] id[i]
            <= '\u{7f}' by {
            assert(vstd::utf8::is_ascii_chars(id));
        }
    } else {
        let id = choose|id: Seq<char>| #[trigger]
            g.entities.contains_key(id) && !vstd::utf8::is_ascii_chars(id);
        let i = choose|i: int| 0 <= i < id.len() && !('\0' <= #[trigger] id[i] <= '\u{7f}');
        assert(g.entities.contains_key(id) && 0 <= i < id.len());
    }
}

} // verus!
