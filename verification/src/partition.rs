//! The communities that the entities are stored with.

use std::collections::BTreeMap;
use vstd::prelude::*;
use vstd::string::StringExecFns;
use crate::graph::{Entity, KnowledgeGraph};
use crate::model::{EntityView, GraphView};
use crate::string_map::texts;

verus! {

/// What is told of an entity as a member of its community.
pub open spec fn description_line(entity: EntityView) -> Seq<char> {
    entity.name + ": "@ + entity.description
}

impl GraphView {
    pub open spec fn in_community(self, c: int) -> spec_fn(Seq<char>) -> bool {
        |id: Seq<char>| self.entities[id].community_id == c
    }

    /// The members of a community, in ascending order.
    pub open spec fn members(self, c: int) -> Seq<Seq<char>> {
        self.ids().filter(self.in_community(c))
    }

    /// Some entity belongs to the community.
    pub open spec fn has_community(self, c: int) -> bool {
        exists|id: Seq<char>| #[trigger]
            self.entities.contains_key(id) && self.entities[id].community_id == c
    }

    /// What is told of the members of a community.
    pub open spec fn community_lines(self, c: int) -> Seq<Seq<char>> {
        self.members(c).map_values(|id: Seq<char>| description_line(self.entities[id]))
    }

    /// The names of the members of a community.
    pub open spec fn member_names(self, c: int) -> Seq<Seq<char>> {
        self.members(c).map_values(|id: Seq<char>| self.entities[id].name)
    }
}

/// One more element, kept if it passes.
pub proof fn lemma_filter_take_succ<A>(s: Seq<A>, i: int, f: spec_fn(A) -> bool)
    requires
        0 <= i < s.len(),
    ensures
        s.take(i + 1).filter(f) == (if f(s[i]) {
            s.take(i).filter(f).push(s[i])
        } else {
            s.take(i).filter(f)
        }),
{
    reveal(Seq::filter);
    assert(s.take(i + 1).drop_last() =~= s.take(i));
    assert(s.take(i + 1).last() == s[i]);
}

pub proof fn lemma_filter_contains<A>(s: Seq<A>, f: spec_fn(A) -> bool, x: A)
    ensures
        s.filter(f).contains(x) <==> s.contains(x) && f(x),
    decreases s.len(),
{
    reveal(Seq::filter);
    if s.len() > 0 {
        let rest = s.drop_last();
        lemma_filter_contains(rest, f, x);
        assert(s =~= rest.push(s.last()));
        let kept = rest.filter(f);
        let all = s.filter(f);
        if s.contains(x) {
            let i = choose|i: int| 0 <= i < s.len() && s[i] == x;
            if i < rest.len() {
                assert(rest[i] == x);
            }
        }
        if rest.contains(x) {
            let i = choose|i: int| 0 <= i < rest.len() && rest[i] == x;
            assert(s[i] == x);
        }
        assert(s[s.len() - 1] == s.last());
        if f(s.last()) {
            assert(all == kept.push(s.last()));
            assert(all[kept.len() as int] == s.last());
            if kept.contains(x) {
                let i = choose|i: int| 0 <= i < kept.len() && kept[i] == x;
                assert(all[i] == x);
            }
            if all.contains(x) {
                let i = choose|i: int| 0 <= i < all.len() && all[i] == x;
                if i < kept.len() {
                    assert(kept[i] == x);
                }
            }
        }
    }
}

fn describe_member(entity: &Entity) -> (line: String)
    ensures
        line@ == description_line(entity@),
{
    let mut line = entity.name.clone();
    line.append(": ");
    line.append(entity.description.as_str());
    line
}

impl KnowledgeGraph {
    /// What is told of the members of a community, in ascending order of their
    /// identifiers.
    pub fn get_community_descriptions(&self, community_id: usize) -> (descriptions: Vec<String>)
        requires
            self.well_formed(),
        ensures
            texts(descriptions@) == self@.community_lines(community_id as int),
    {
        let ghost c = community_id as int;
        let ghost ids = self@.ids();
        let ghost f = self@.in_community(c);
        let ghost line = |id: Seq<char>| description_line(self@.entities[id]);
        let mut descriptions: Vec<String> = Vec::new();
        proof {
            self.lemma_finite();
            self.entities.lemma_listing();
            reveal(Seq::filter);
            assert(ids.take(0).filter(f).map_values(line) =~= texts(descriptions@));
        }
        let n: usize = self.entities.len();
        let mut i: usize = 0;
        while i < n
            invariant
                self.well_formed(),
                i <= n,
                n == self.entities@.len(),
                ids == self@.ids(),
                ids == self.entities.key_order(),
                ids.len() == n,
                c == community_id,
                f == self@.in_community(c),
                line == (|id: Seq<char>| description_line(self@.entities[id])),
                texts(descriptions@) == ids.take(i as int).filter(f).map_values(line),
            decreases n - i,
        {
            let entity: &Entity = self.entities.value_at(i);
            let ghost kept = ids.take(i as int).filter(f);
            proof {
                self.entities.lemma_listing();
                assert(self.entities@.contains_key(self.entities.key_order()[i as int]));
                assert(self@.entities[ids[i as int]] == entity@);
                lemma_filter_take_succ(ids, i as int, f);
            }
            if entity.community_id == community_id {
                let told = describe_member(entity);
                proof {
                    assert(texts(descriptions@.push(told)) =~= texts(descriptions@).push(told@));
                    assert(kept.push(ids[i as int]).map_values(line) =~= kept.map_values(line).push(
                        told@,
                    ));
                }
                descriptions.push(told);
            }
            i += 1;
        }
        proof {
            assert(ids.take(n as int) =~= ids);
            assert(self@.community_lines(c) =~= ids.filter(f).map_values(line));
        }
        descriptions
    }

    /// The communities with their members, the members in ascending order.
    pub fn communities(&self) -> (out: BTreeMap<usize, Vec<String>>)
        requires
            self.well_formed(),
        ensures
            forall|c: usize| #[trigger]
                out@.contains_key(c) <==> self@.has_community(c as int),
            forall|c: usize| #[trigger]
                out@.contains_key(c) ==> texts(out@[c]@) == self@.members(c as int),
    {
        broadcast use vstd::std_specs::btree::group_btree_axioms;

        let ghost ids = self@.ids();
        proof {
            self.lemma_finite();
            self.entities.lemma_listing();
            reveal(Seq::filter);
        }
        let mut out: BTreeMap<usize, Vec<String>> = BTreeMap::new();
        let n: usize = self.entities.len();
        let mut i: usize = 0;
        while i < n
            invariant
                self.well_formed(),
                i <= n,
                n == self.entities@.len(),
                ids == self@.ids(),
                ids == self.entities.key_order(),
                ids.len() == n,
                forall|c: usize| #[trigger]
                    out@.contains_key(c) <==> ids.take(i as int).filter(
                        self@.in_community(c as int),
                    ).len() > 0,
                forall|c: usize| #[trigger]
                    out@.contains_key(c) ==> texts(out@[c]@) == ids.take(i as int).filter(
                        self@.in_community(c as int),
                    ),
            decreases n - i,
        {
            let c: usize = self.entities.value_at(i).community_id;
            let ghost before = out@;
            let ghost kept = ids.take(i as int).filter(self@.in_community(c as int));
            let mut members: Vec<String> = match out.remove(&c) {
                Some(members) => members,
                None => Vec::new(),
            };
            proof {
                self.entities.lemma_listing();
                assert(self.entities@.contains_key(self.entities.key_order()[i as int]));
                assert(texts(members@) =~= kept);
            }
            let id: String = self.entities.key_at(i).clone();
            let ghost text = id@;
            assert(texts(members@.push(id)) =~= kept.push(text));
            members.push(id);
            out.insert(c, members);
            proof {
                assert forall|d: usize| #![trigger out@.contains_key(d)]
                    (out@.contains_key(d) <==> ids.take(i + 1).filter(
                        self@.in_community(d as int),
                    ).len() > 0) && (out@.contains_key(d) ==> texts(out@[d]@) == ids.take(
                        i + 1,
                    ).filter(self@.in_community(d as int))) by {
                    lemma_filter_take_succ(ids, i as int, self@.in_community(d as int));
                    assert(before.contains_key(d) <==> ids.take(i as int).filter(
                        self@.in_community(d as int),
                    ).len() > 0);
                }
            }
            i += 1;
        }
        proof {
            assert(ids.take(n as int) =~= ids);
            assert forall|c: usize| #[trigger]
                out@.contains_key(c) <==> self@.has_community(c as int) by {
                self.lemma_members(c as int);
            }
        }
        out
    }

    proof fn lemma_members(&self, c: int)
        requires
            self.well_formed(),
        ensures
            self@.members(c).len() > 0 <==> self@.has_community(c),
    {
        let f = self@.in_community(c);
        self.lemma_finite();
        self.entities.lemma_listing();
        if self@.members(c).len() > 0 {
            let id = self@.members(c)[0];
            assert(self@.members(c).contains(id));
            lemma_filter_contains(self@.ids(), f, id);
            assert(self@.entities.contains_key(id));
        }
        if self@.has_community(c) {
            let id = choose|id: Seq<char>| #[trigger]
                self@.entities.contains_key(id) && self@.entities[id].community_id == c;
            assert(self.entities@.contains_key(id));
            assert(self@.ids().contains(id));
            lemma_filter_contains(self@.ids(), f, id);
            assert(self@.members(c).contains(id));
        }
    }
}

} // verus!
