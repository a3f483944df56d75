//! Contexts: what the graph answers to a query.

use std::collections::BTreeMap;
use vstd::prelude::*;
use vstd::std_specs::btree::increasing_seq;
use vstd::std_specs::cmp::OrdSpec;
use vstd::std_specs::iter::IteratorSpec;
use vstd::string::StringExecFns;
use vstd::utf8::encode_utf8;
use crate::cutting::{chars_of, contains_text, find, lemma_contains_text};
use crate::graph::KnowledgeGraph;
use crate::model::GraphView;
use crate::partition::lemma_filter_contains;
use crate::string_map::texts;
use crate::text::{decimal, push_decimal};

verus! {

/// The number of hops of a walk for a local context.
pub const LOCAL_HOPS: usize = 3;

/// A query, in lower case, that asks for all communities.
pub open spec fn asks_for_overview(query: Seq<char>) -> bool {
    contains_text(query, "summary"@) || contains_text(query, "themes"@)
}

/// Texts one after the other, with a separator between them.
pub open spec fn separated(parts: Seq<Seq<char>>, separator: Seq<char>) -> Seq<char>
    decreases parts.len(),
{
    if parts.len() == 0 {
        Seq::empty()
    } else if parts.len() == 1 {
        parts[0]
    } else {
        separated(parts.drop_last(), separator) + separator + parts.last()
    }
}

/// Lines one after the other, each with a mark before it.
pub open spec fn bullets(lines: Seq<Seq<char>>, mark: Seq<char>) -> Seq<char>
    decreases lines.len(),
{
    if lines.len() == 0 {
        Seq::empty()
    } else {
        bullets(lines.drop_last(), mark) + mark + lines.last() + "\n"@
    }
}

/// Numbers in ascending order.
pub open spec fn ascending_numbers(s: Seq<int>) -> bool {
    forall|i: int, j: int| 0 <= i < j < s.len() ==> s[i] < s[j]
}

impl GraphView {
    /// The numbers are those of the communities, in ascending order.
    pub open spec fn lists_communities(self, s: Seq<int>) -> bool {
        &&& ascending_numbers(s)
        &&& forall|c: int| #[trigger] s.contains(c) <==> self.has_community(c)
    }

    /// The numbers of the communities, in ascending order.
    pub open spec fn community_numbers(self) -> Seq<int> {
        choose|s: Seq<int>| self.lists_communities(s)
    }

    /// What an overview tells of a community.
    pub open spec fn cluster(self, c: int) -> Seq<char> {
        "Community Cluster "@ + decimal(c as nat) + ":\n"@ + "  Members: "@ + separated(
            self.member_names(c),
            ", "@,
        ) + "\n"@ + "  Details:\n"@ + bullets(self.community_lines(c), "    - "@)
    }

    /// What an overview tells of several communities, one after the other.
    pub open spec fn clusters(self, numbers: Seq<int>) -> Seq<char>
        decreases numbers.len(),
    {
        if numbers.len() == 0 {
            Seq::empty()
        } else {
            self.clusters(numbers.drop_last()) + self.cluster(numbers.last())
        }
    }

    /// What is told of all communities.
    pub open spec fn overview(self) -> Seq<char> {
        "GLOBAL CONTEXT (Community Clusters):\n"@ + self.clusters(self.community_numbers())
    }

    /// What a walk from an entity tells.
    pub open spec fn local_context(self, start: Seq<char>) -> Seq<char> {
        "LOCAL CONTEXT (Entity Walk for '"@ + start + "'):\n"@ + bullets(
            self.walk_context(start, LOCAL_HOPS as nat),
            "  * "@,
        )
    }

    /// The entity at a position, by its identifier in lower case, is spoken of
    /// in a query. One with an empty identifier never is.
    pub open spec fn spoken_of(self, query: Seq<char>, lowered: Seq<Seq<char>>, k: int) -> bool {
        &&& 0 <= k < self.ids().len()
        &&& contains_text(query, lowered[k])
        &&& encode_utf8(self.ids()[k]).len() > 0
    }

    /// The entity that a walk starts from: of those spoken of the one with the
    /// longest identifier, and the first of several such.
    pub open spec fn is_start(self, query: Seq<char>, lowered: Seq<Seq<char>>, k: int) -> bool {
        &&& self.spoken_of(query, lowered, k)
        &&& forall|j: int| #[trigger]
            self.spoken_of(query, lowered, j) ==> {
                let length = encode_utf8(self.ids()[k]).len();
                let other = encode_utf8(self.ids()[j]).len();
                other < length || (other == length && k <= j)
            }
    }

    /// The answer to a query, given the query and the identifiers in lower case.
    pub open spec fn context(self, query: Seq<char>, lowered: Seq<Seq<char>>) -> Seq<char> {
        if asks_for_overview(query) {
            self.overview()
        } else if exists|k: int| self.is_start(query, lowered, k) {
            let k = choose|k: int| self.is_start(query, lowered, k);
            self.local_context(self.ids()[k])
        } else {
            "LOCAL CONTEXT: No matching entities found in knowledge graph for query."@
        }
    }
}

/// At most one entity is the start.
pub proof fn law_start_unique(
    g: GraphView,
    query: Seq<char>,
    lowered: Seq<Seq<char>>,
    a: int,
    b: int,
)
    requires
        g.is_start(query, lowered, a),
        g.is_start(query, lowered, b),
    ensures
        a == b,
{
    assert(g.spoken_of(query, lowered, a));
    assert(g.spoken_of(query, lowered, b));
}

proof fn lemma_ascending_numbers_same(s: Seq<int>, t: Seq<int>)
    requires
        ascending_numbers(s),
        ascending_numbers(t),
        forall|c: int| #[trigger] s.contains(c) <==> t.contains(c),
    ensures
        s == t,
    decreases s.len(),
{
    if s.len() == 0 {
        if t.len() > 0 {
            assert(t.contains(t[0]));
            assert(s.contains(t[0]));
        }
        assert(s =~= t);
    } else {
        assert(s.contains(s.last()));
        assert(t.len() > 0);
        assert(t.contains(t.last()));
        assert(s.contains(t.last()));
        let i = choose|i: int| 0 <= i < t.len() && t[i] == s.last();
        let j = choose|j: int| 0 <= j < s.len() && s[j] == t.last();
        assert(s.last() == t.last());
        let s2 = s.drop_last();
        let t2 = t.drop_last();
        assert forall|c: int| #[trigger] s2.contains(c) <==> t2.contains(c) by {
            assert(s.contains(c) <==> t.contains(c));
            if s2.contains(c) {
                let k = choose|k: int| 0 <= k < s2.len() && s2[k] == c;
                assert(s[k] == c);
                assert(s.contains(c));
                let m = choose|m: int| 0 <= m < t.len() && t[m] == c;
                assert(m < t.len() - 1);
                assert(t2[m] == c);
            }
            if t2.contains(c) {
                let k = choose|k: int| 0 <= k < t2.len() && t2[k] == c;
                assert(t[k] == c);
                assert(t.contains(c));
                let m = choose|m: int| 0 <= m < s.len() && s[m] == c;
                assert(m < s.len() - 1);
                assert(s2[m] == c);
            }
        }
        lemma_ascending_numbers_same(s2, t2);
        assert(s =~= s2.push(s.last()));
        assert(t =~= t2.push(t.last()));
    }
}

proof fn lemma_community_numbers(g: GraphView, s: Seq<int>)
    requires
        g.lists_communities(s),
    ensures
        g.community_numbers() == s,
{
    let t = g.community_numbers();
    assert(g.lists_communities(t));
    assert forall|c: int| #[trigger] s.contains(c) <==> t.contains(c) by {
        assert(s.contains(c) <==> g.has_community(c));
        assert(t.contains(c) <==> g.has_community(c));
    }
    lemma_ascending_numbers_same(s, t);
}

/// What it means for keys to be listed in increasing order.
proof fn lemma_increasing(keys: Seq<usize>)
    requires
        increasing_seq(keys),
    ensures
        forall|i: int, j: int| 0 <= i < j < keys.len() ==> keys[i] < keys[j],
{
    broadcast use vstd::std_specs::btree::group_btree_axioms;
    broadcast use vstd::laws_cmp::group_laws_cmp;

    assert forall|i: int, j: int| 0 <= i < j < keys.len() implies keys[i] < keys[j] by {
        assert(keys[i].cmp_spec(&keys[j]) is Less);
    }
}

/// Whether a text contains a pattern.
pub fn contains(s: &str, pattern: &str) -> (b: bool)
    ensures
        b == contains_text(s@, pattern@),
{
    proof {
        lemma_contains_text(s@, pattern@);
    }
    find(&chars_of(s), &chars_of(pattern)).is_some()
}

/// Appends texts with a separator between them.
fn push_joined(out: &mut String, parts: &Vec<String>, separator: &str)
    ensures
        final(out)@ == old(out)@ + separated(texts(parts@), separator@),
{
    let ghost start = out@;
    let ghost all = texts(parts@);
    let mut i: usize = 0;
    assert(start + separated(all.take(0), separator@) =~= start);
    while i < parts.len()
        invariant
            i <= parts.len(),
            all == texts(parts@),
            out@ == start + separated(all.take(i as int), separator@),
        decreases parts.len() - i,
    {
        proof {
            assert(all.take(i + 1).drop_last() =~= all.take(i as int));
            assert(all.take(i + 1).last() == parts[i as int]@);
        }
        if i > 0 {
            out.append(separator);
        }
        out.append(parts[i].as_str());
        proof {
            if i == 0 {
                assert(all.take(1)[0] == parts[0]@);
            }
            assert(out@ =~= start + separated(all.take(i + 1), separator@));
        }
        i += 1;
    }
    assert(all.take(parts.len() as int) =~= all);
}

/// Appends lines, each with a mark before it.
fn push_bullets(out: &mut String, lines: &Vec<String>, mark: &str)
    ensures
        final(out)@ == old(out)@ + bullets(texts(lines@), mark@),
{
    let ghost start = out@;
    let ghost all = texts(lines@);
    let mut i: usize = 0;
    assert(start + bullets(all.take(0), mark@) =~= start);
    while i < lines.len()
        invariant
            i <= lines.len(),
            all == texts(lines@),
            out@ == start + bullets(all.take(i as int), mark@),
        decreases lines.len() - i,
    {
        proof {
            assert(all.take(i + 1).drop_last() =~= all.take(i as int));
            assert(all.take(i + 1).last() == lines[i as int]@);
        }
        out.append(mark);
        out.append(lines[i].as_str());
        out.append("\n");
        assert(out@ =~= start + bullets(all.take(i + 1), mark@));
        i += 1;
    }
    assert(all.take(lines.len() as int) =~= all);
}

impl KnowledgeGraph {
    /// The names of the entities with the given identifiers.
    fn names(&self, ids: &Vec<String>) -> (names: Vec<String>)
        requires
            self.well_formed(),
            forall|i: int|
                0 <= i < ids.len() ==> self@.entities.contains_key(#[trigger] texts(ids@)[i]),
        ensures
            texts(names@) == texts(ids@).map_values(|id: Seq<char>| self@.entities[id].name),
    {
        let ghost all = texts(ids@).map_values(|id: Seq<char>| self@.entities[id].name);
        let mut names: Vec<String> = Vec::new();
        proof {
            self.lemma_finite();
        }
        let mut i: usize = 0;
        assert(texts(names@) =~= all.take(0));
        while i < ids.len()
            invariant
                self.well_formed(),
                self@.entities.dom() == self.entities@.dom(),
                i <= ids.len(),
                forall|i: int|
                    0 <= i < ids.len() ==> self@.entities.contains_key(#[trigger] texts(ids@)[i]),
                all == texts(ids@).map_values(|id: Seq<char>| self@.entities[id].name),
                texts(names@) == all.take(i as int),
            decreases ids.len() - i,
        {
            let id: &String = &ids[i];
            assert(texts(ids@)[i as int] == id@);
            let name: String = self.entities.get(id.as_str()).unwrap().name.clone();
            proof {
                assert(all[i as int] == name@);
                assert(texts(names@.push(name)) =~= texts(names@).push(name@));
                assert(all.take(i + 1) =~= all.take(i as int).push(name@));
            }
            names.push(name);
            i += 1;
        }
        assert(all.take(ids.len() as int) =~= all);
        names
    }

    /// Appends what an overview tells of a community.
    fn push_cluster(&self, out: &mut String, c: usize, members: &Vec<String>)
        requires
            self.well_formed(),
            texts(members@) == self@.members(c as int),
        ensures
            final(out)@ == old(out)@ + self@.cluster(c as int),
    {
        proof {
            self.lemma_finite();
            self.entities.lemma_listing();
            assert forall|i: int| 0 <= i < members.len() implies self@.entities.contains_key(
                #[trigger] texts(members@)[i],
            ) by {
                let id = texts(members@)[i];
                assert(self@.members(c as int).contains(id));
                lemma_filter_contains(self@.ids(), self@.in_community(c as int), id);
                assert(self.entities@.contains_key(id));
            }
        }
        out.append("Community Cluster ");
        push_decimal(out, c);
        out.append(":\n");
        out.append("  Members: ");
        let names = self.names(members);
        push_joined(out, &names, ", ");
        out.append("\n");
        out.append("  Details:\n");
        let details = self.get_community_descriptions(c);
        push_bullets(out, &details, "    - ");
        assert(out@ =~= old(out)@ + self@.cluster(c as int));
    }

    /// What is told of all communities, in ascending order of their numbers.
    fn tell_overview(&self) -> (out: String)
        requires
            self.well_formed(),
        ensures
            out@ == self@.overview(),
    {
        broadcast use vstd::std_specs::btree::group_btree_axioms;

        let communities: BTreeMap<usize, Vec<String>> = self.communities();
        let mut out = "GLOBAL CONTEXT (Community Clusters):\n".to_owned();
        let ghost start = out@;
        let ghost mut numbers: Seq<int> = Seq::empty();
        assert(start + self@.clusters(numbers) =~= start);
        let entries = communities.iter();
        let ghost listed = entries.remaining();
        let ghost keys = listed.map_values(|kv: (&usize, &Vec<String>)| *kv.0);
        proof {
            lemma_increasing(keys);
        }
        for entry in it: entries
            invariant
                self.well_formed(),
                it.seq() == listed,
                numbers.len() == it.index(),
                forall|i: int| 0 <= i < numbers.len() ==> #[trigger] numbers[i] == *listed[i].0,
                forall|i: int|
                    0 <= i < listed.len() ==> communities@.contains_key(*(#[trigger] listed[i]).0)
                        && communities@[*listed[i].0] == *listed[i].1,
                forall|c: usize| #[trigger]
                    communities@.contains_key(c) ==> texts(communities@[c]@) == self@.members(
                        c as int,
                    ),
                out@ == start + self@.clusters(numbers),
        {
            let ghost before = out@;
            let (c, members) = entry;
            self.push_cluster(&mut out, *c, members);
            proof {
                let more = numbers.push(*c as int);
                assert(more.drop_last() =~= numbers);
                assert(out@ =~= start + self@.clusters(more));
                numbers = more;
            }
        }
        proof {
            assert forall|i: int, j: int| 0 <= i < j < numbers.len() implies numbers[i]
                < numbers[j] by {
                assert(keys[i] < keys[j]);
            }
            assert forall|c: int| #[trigger] numbers.contains(c) <==> self@.has_community(c) by {
                if numbers.contains(c) {
                    let i = choose|i: int| 0 <= i < numbers.len() && numbers[i] == c;
                    assert(communities@.contains_key(*listed[i].0));
                }
                if self@.has_community(c) {
                    let id = choose|id: Seq<char>| #[trigger]
                        self@.entities.contains_key(id) && self@.entities[id].community_id == c;
                    let key = self.entities@[id].community_id;
                    assert(communities@.contains_key(key));
                    let i = choose|i: int|
                        0 <= i < listed.len() && listed[i] == (&key, &communities@[key]);
                    assert(numbers[i] == c);
                }
            }
            assert(self@.lists_communities(numbers));
            lemma_community_numbers(self@, numbers);
        }
        out
    }

    /// What a walk from an entity tells.
    fn tell_walk(&self, start: &str) -> (out: String)
        requires
            self.well_formed(),
        ensures
            out@ == self@.local_context(start@),
    {
        let mut out = "LOCAL CONTEXT (Entity Walk for '".to_owned();
        out.append(start);
        out.append("'):\n");
        let facts = self.multi_hop_search(start, LOCAL_HOPS);
        push_bullets(&mut out, &facts, "  * ");
        out
    }

    /// The position of the entity that a walk for a query starts from.
    fn find_start(&self, query: &str, lowered: &Vec<String>) -> (r: Option<usize>)
        requires
            self.well_formed(),
            lowered.len() == self@.entities.len(),
        ensures
            match r {
                Some(k) => self@.is_start(query@, texts(lowered@), k as int),
                None => forall|j: int| !#[trigger] self@.spoken_of(query@, texts(lowered@), j),
            },
    {
        let ghost ids = self@.ids();
        let ghost names = texts(lowered@);
        proof {
            self.lemma_finite();
            self.entities.lemma_listing();
        }
        let chars = chars_of(query);
        let n: usize = self.entities.len();
        let mut best: Option<usize> = None;
        let mut length: usize = 0;
        let mut i: usize = 0;
        while i < n
            invariant
                self.well_formed(),
                n == self.entities@.len(),
                n == lowered.len(),
                i <= n,
                ids == self@.ids(),
                ids == self.entities.key_order(),
                ids.len() == n,
                names == texts(lowered@),
                chars@ == query@,
                match best {
                    Some(k) => {
                        &&& k < i
                        &&& length == encode_utf8(ids[k as int]).len()
                        &&& self@.spoken_of(query@, names, k as int)
                        &&& forall|j: int|
                            j < i && #[trigger] self@.spoken_of(query@, names, j) ==> {
                                let other = encode_utf8(ids[j]).len();
                                other < length || (other == length && k <= j)
                            }
                    },
                    None => {
                        &&& length == 0
                        &&& forall|j: int| j < i ==> !#[trigger] self@.spoken_of(query@, names, j)
                    },
                },
            decreases n - i,
        {
            proof {
                assert(names[i as int] == lowered[i as int]@);
                lemma_contains_text(query@, names[i as int]);
            }
            let bytes: usize = self.entities.key_at(i).as_str().as_bytes().len();
            if bytes > length && find(&chars, &chars_of(lowered[i].as_str())).is_some() {
                assert(self@.spoken_of(query@, names, i as int));
                best = Some(i);
                length = bytes;
            }
            i += 1;
        }
        best
    }

    /// The answer to a query. The query and the identifiers of the entities, in
    /// ascending order, are given in lower case.
    pub fn context_of(&self, query: &str, lowered: &Vec<String>) -> (out: String)
        requires
            self.well_formed(),
            lowered.len() == self@.entities.len(),
        ensures
            out@ == self@.context(query@, texts(lowered@)),
    {
        if contains(query, "summary") || contains(query, "themes") {
            return self.tell_overview();
        }
        proof {
            self.lemma_finite();
            self.entities.lemma_listing();
        }
        match self.find_start(query, lowered) {
            Some(k) => {
                proof {
                    let chosen = choose|j: int| self@.is_start(query@, texts(lowered@), j);
                    law_start_unique(self@, query@, texts(lowered@), k as int, chosen);
                }
                self.tell_walk(self.entities.key_at(k).as_str())
            },
            None => {
                proof {
                    if exists|j: int| self@.is_start(query@, texts(lowered@), j) {
                        let j = choose|j: int| self@.is_start(query@, texts(lowered@), j);
                        assert(self@.spoken_of(query@, texts(lowered@), j));
                    }
                }
                "LOCAL CONTEXT: No matching entities found in knowledge graph for query.".to_owned()
            },
        }
    }
}

} // verus!
