//! What is told of a community.

use vstd::prelude::*;
use vstd::utf8::encode_utf8;
use crate::collation::{law_order_is_by_bytes, lemma_in_order, text_before};
use crate::graph_laws::{law_communities_divide_entities, lemma_ids};
use crate::model::GraphView;

verus! {

/// What was kept stands in the order in which it stood before.
proof fn lemma_filter_order<A>(s: Seq<A>, f: spec_fn(A) -> bool, i: int, j: int) -> (places: (
    int,
    int,
))
    requires
        0 <= i < j < s.filter(f).len(),
    ensures
        0 <= places.0 < places.1 < s.len(),
        s[places.0] == s.filter(f)[i],
        s[places.1] == s.filter(f)[j],
    decreases s.len(),
{
    reveal(Seq::filter);
    if s.len() == 0 {
        (0, 0)
    } else {
        let rest = s.drop_last();
        let kept = rest.filter(f);
        if j < kept.len() {
            lemma_filter_order(rest, f, i, j)
        } else {
            let p = lemma_filter_place(rest, f, i);
            (p, s.len() - 1)
        }
    }
}

proof fn lemma_filter_place<A>(s: Seq<A>, f: spec_fn(A) -> bool, i: int) -> (place: int)
    requires
        0 <= i < s.filter(f).len(),
    ensures
        0 <= place < s.len(),
        s[place] == s.filter(f)[i],
    decreases s.len(),
{
    reveal(Seq::filter);
    if s.len() == 0 {
        0
    } else {
        let rest = s.drop_last();
        if i < rest.filter(f).len() {
            lemma_filter_place(rest, f, i)
        } else {
            s.len() - 1
        }
    }
}

/// The members of a community are the entities that are stored with its number,
/// listed once each and in the order of their bytes.
pub proof fn law_members_are_listed(g: GraphView, c: int, id: Seq<char>, i: int, j: int)
    requires
        g.finite(),
    ensures
        (exists|k: int| 0 <= k < g.members(c).len() && #[trigger] g.members(c)[k] == id)
            <==> g.entities.contains_key(id) && g.entities[id].community_id == c,
        0 <= i < j < g.members(c).len() ==> ({
            let a = encode_utf8(g.members(c)[i]);
            let b = encode_utf8(g.members(c)[j]);
            exists|n: int|
                0 <= n <= a.len() && n < b.len() && #[trigger] a.take(n) == b.take(n) && (n
                    == a.len() || a[n] < b[n])
        }),
        g.members(c).no_duplicates(),
{
    let members = g.members(c);
    law_communities_divide_entities(g, c, id);
    assert(members.contains(id) <==> exists|k: int|
        0 <= k < members.len() && #[trigger] members[k] == id);
    lemma_in_order(g.entities.dom());
    lemma_ids(g);
    if 0 <= i < j < members.len() {
        let (p, q) = lemma_filter_order(g.ids(), g.in_community(c), i, j);
        assert(text_before(g.ids()[p], g.ids()[q]));
        law_order_is_by_bytes(members[i], members[j]);
    }
    assert forall|a: int, b: int| 0 <= a < b < members.len() implies members[a] != members[b] by {
        let (p, q) = lemma_filter_order(g.ids(), g.in_community(c), a, b);
    }
}

/// A community exists where some entity is stored with its number.
pub proof fn law_community_has_members(g: GraphView, c: int)
    ensures
        g.has_community(c) <==> exists|id: Seq<char>| #[trigger]
            g.entities.contains_key(id) && g.entities[id].community_id == c,
{
}

/// Of every member of a community its name and its description are told, in
/// full, and its name is listed.
pub proof fn law_community_tells_of_members(g: GraphView, c: int, id: Seq<char>)
    requires
        g.finite(),
        g.entities.contains_key(id),
        g.entities[id].community_id == c,
    ensures
        g.community_lines(c).contains(g.entities[id].name + ": "@ + g.entities[id].description),
        g.member_names(c).contains(g.entities[id].name),
{
    law_communities_divide_entities(g, c, id);
    let k = choose|k: int| 0 <= k < g.members(c).len() && g.members(c)[k] == id;
    assert(g.community_lines(c)[k] == g.entities[id].name + ": "@ + g.entities[id].description);
    assert(g.member_names(c)[k] == g.entities[id].name);
}

/// What is told of the members of a community is told in their order, and
/// nothing else is told.
pub proof fn law_community_tells_member_by_member(g: GraphView, c: int, k: int)
    ensures
        g.community_lines(c).len() == g.members(c).len(),
        g.member_names(c).len() == g.members(c).len(),
        0 <= k < g.members(c).len() ==> ({
            let entity = g.entities[g.members(c)[k]];
            &&& g.community_lines(c)[k] == entity.name + ": "@ + entity.description
            &&& g.member_names(c)[k] == entity.name
        }),
{
}

} // verus!
