//! Walks over the stored graph, and what they tell.

use vstd::hash_map::StringHashMap;
use vstd::prelude::*;
use vstd::string::StringExecFns;
use crate::edge_laws::lemma_flatten_take_succ;
use crate::graph::{relationships, Entity, KnowledgeGraph, Relationship};
use crate::string_map::texts;
use crate::traversal::{
    discovered, entity_line, lemma_expanded_extends, lemma_frontier, lemma_frontier_done,
    relation_line, relation_lines,
};

verus! {

/// The marks are those of the listed identifiers.
spec fn marks(visited: Map<Seq<char>, bool>, known: Seq<Seq<char>>) -> bool {
    forall|t: Seq<char>| #[trigger] visited.contains_key(t) <==> known.contains(t)
}

proof fn lemma_marks_push(visited: Map<Seq<char>, bool>, known: Seq<Seq<char>>, t: Seq<char>)
    requires
        marks(visited, known),
    ensures
        marks(visited.insert(t, true), known.push(t)),
{
    assert forall|u: Seq<char>| #[trigger] visited.insert(t, true).contains_key(u)
        <==> known.push(t).contains(u) by {
        assert(visited.contains_key(u) <==> known.contains(u));
        if known.contains(u) {
            let i = choose|i: int| 0 <= i < known.len() && known[i] == u;
            assert(known.push(t)[i] == u);
        }
        assert(known.push(t)[known.len() as int] == t);
        if known.push(t).contains(u) {
            let i = choose|i: int| 0 <= i < known.push(t).len() && known.push(t)[i] == u;
            if i < known.len() {
                assert(known[i] == u);
            }
        }
    }
}

proof fn lemma_texts_push(strings: Seq<String>, s: String)
    ensures
        texts(strings.push(s)) == texts(strings).push(s@),
{
    assert(texts(strings.push(s)) =~= texts(strings).push(s@));
}

/// Puts the targets that are not known yet behind the others.
fn follow(known: &mut Vec<String>, visited: &mut StringHashMap<bool>, edges: &Vec<Relationship>)
    requires
        marks(old(visited)@, texts(old(known)@)),
    ensures
        texts(final(known)@) == discovered(texts(old(known)@), relationships(edges@)),
        marks(final(visited)@, texts(final(known)@)),
{
    let ghost start = texts(known@);
    let ghost views = relationships(edges@);
    let mut e: usize = 0;
    while e < edges.len()
        invariant
            e <= edges.len(),
            views == relationships(edges@),
            texts(known@) == discovered(start, views.take(e as int)),
            marks(visited@, texts(known@)),
        decreases edges.len() - e,
    {
        let target: &String = &edges[e].target;
        proof {
            assert(views.take(e + 1).drop_last() =~= views.take(e as int));
            assert(views.take(e + 1).last() == edges[e as int]@);
        }
        if !visited.contains_key(target.as_str()) {
            proof {
                lemma_marks_push(visited@, texts(known@), target@);
                lemma_texts_push(known@, *target);
            }
            visited.insert(target.clone(), true);
            known.push(target.clone());
        }
        e += 1;
    }
    assert(views.take(edges.len() as int) =~= views);
}

/// The line that describes an entity.
fn describe_entity(entity: &Entity) -> (line: String)
    ensures
        line@ == entity_line(entity@),
{
    let mut line = "Entity: ".to_owned();
    line.append(entity.name.as_str());
    line.append(" (");
    line.append(entity.entity_type.as_str());
    line.append(") - ");
    line.append(entity.description.as_str());
    line
}

/// The line that describes a relationship.
fn describe_relationship(edge: &Relationship) -> (line: String)
    ensures
        line@ == relation_line(edge@),
{
    let mut line = "Relation: ".to_owned();
    line.append(edge.source.as_str());
    line.append(" --[");
    line.append(edge.relation.as_str());
    line.append("]--> ");
    line.append(edge.target.as_str());
    line
}

/// Appends the lines of relationships.
fn tell_relationships(context: &mut Vec<String>, edges: &Vec<Relationship>)
    ensures
        texts(final(context)@) == texts(old(context)@) + relation_lines(relationships(edges@)),
{
    let ghost start = texts(context@);
    let ghost lines = relation_lines(relationships(edges@));
    let mut e: usize = 0;
    assert(start + lines.take(0) =~= start);
    while e < edges.len()
        invariant
            e <= edges.len(),
            lines == relation_lines(relationships(edges@)),
            texts(context@) == start + lines.take(e as int),
        decreases edges.len() - e,
    {
        let line = describe_relationship(&edges[e]);
        proof {
            lemma_texts_push(context@, line);
            assert(lines[e as int] == line@);
            assert(start + lines.take(e + 1) =~= (start + lines.take(e as int)).push(line@));
        }
        context.push(line);
        e += 1;
    }
    assert(lines.take(edges.len() as int) =~= lines);
}

impl KnowledgeGraph {
    /// Walks breadth first along outgoing relationships, at most `max_hops` hops
    /// far. Gives the identifiers in the order of discovery, and the number of
    /// those from which the walk went on.
    fn explore(&self, start_entity: &str, max_hops: usize) -> (r: (Vec<String>, usize))
        requires
            self.well_formed(),
        ensures
            texts(r.0@) == self@.frontier(start_entity@, max_hops as nat).known,
            r.1 == self@.frontier(start_entity@, max_hops as nat).from,
    {
        let ghost start = start_entity@;
        let mut known: Vec<String> = Vec::new();
        let mut visited: StringHashMap<bool> = StringHashMap::new();
        proof {
            self.lemma_finite();
            assert(texts(known@) =~= Seq::empty());
            lemma_marks_push(visited@, texts(known@), start);
        }
        known.push(start_entity.to_owned());
        visited.insert(start_entity.to_owned(), true);
        assert(texts(known@) =~= seq![start]);
        assert(texts(known@) =~= Seq::empty().push(start));
        let mut from: usize = 0;
        let mut hop: usize = 0;
        while hop < max_hops && from < known.len()
            invariant
                self.well_formed(),
                self@.adj.dom() == self.adj@.dom(),
                hop <= max_hops,
                from <= known.len(),
                texts(known@) == self@.frontier(start, hop as nat).known,
                from == self@.frontier(start, hop as nat).from,
                marks(visited@, texts(known@)),
            decreases max_hops - hop,
        {
            let ghost before = texts(known@);
            let end: usize = known.len();
            let mut i: usize = from;
            while i < end
                invariant
                    self.well_formed(),
                    self@.adj.dom() == self.adj@.dom(),
                    from <= i <= end,
                    end == before.len(),
                    end <= known.len(),
                    texts(known@) == self@.expanded(before, from as int, i as int),
                    marks(visited@, texts(known@)),
                decreases end - i,
            {
                proof {
                    lemma_expanded_extends(self@, before, from as int, i as int);
                    lemma_expanded_extends(self@, before, from as int, i + 1);
                    assert(before =~= texts(known@).take(before.len() as int));
                    assert(texts(known@)[i as int] == before[i as int]);
                }
                match self.adj.get(known[i].as_str()) {
                    Some(edges) => {
                        assert(self@.outgoing(before[i as int]) == relationships(edges@));
                        follow(&mut known, &mut visited, edges);
                    },
                    None => {
                        assert(self@.outgoing(before[i as int]) =~= Seq::empty());
                    },
                }
                i += 1;
            }
            from = end;
            hop += 1;
        }
        proof {
            lemma_frontier(self@, start, hop as nat);
            if hop < max_hops {
                lemma_frontier_done(self@, start, hop as nat, max_hops as nat);
            }
        }
        (known, from)
    }

    /// The identifiers within `max_hops` hops along outgoing relationships, the
    /// start among them, in the order in which a breadth-first walk finds them.
    pub fn bfs_reachable(&self, start_entity: &str, max_hops: usize) -> (order: Vec<String>)
        requires
            self.well_formed(),
        ensures
            texts(order@) == self@.reachable(start_entity@, max_hops as nat),
    {
        let (known, _) = self.explore(start_entity, max_hops);
        known
    }

    /// The lines of all entities within `max_hops` hops, each followed by the
    /// lines of its outgoing relationships where the walk goes on from it.
    pub fn multi_hop_search(&self, start_entity: &str, max_hops: usize) -> (context: Vec<String>)
        requires
            self.well_formed(),
        ensures
            texts(context@) == self@.walk_context(start_entity@, max_hops as nat),
    {
        let (known, from) = self.explore(start_entity, max_hops);
        let ghost reached = self@.frontier(start_entity@, max_hops as nat);
        let ghost blocks = self@.frontier_lines(reached);
        let mut context: Vec<String> = Vec::new();
        proof {
            self.lemma_finite();
            assert(blocks.take(0) =~= Seq::empty());
            assert(texts(context@) =~= blocks.take(0).flatten());
        }
        let mut i: usize = 0;
        while i < known.len()
            invariant
                self.well_formed(),
                self@.entities.dom() == self.entities@.dom(),
                self@.adj.dom() == self.adj@.dom(),
                i <= known.len(),
                texts(known@) == reached.known,
                from == reached.from,
                blocks == self@.frontier_lines(reached),
                texts(context@) == blocks.take(i as int).flatten(),
            decreases known.len() - i,
        {
            let id: &str = known[i].as_str();
            assert(id@ == texts(known@)[i as int]);
            let ghost earlier = blocks.take(i as int).flatten();
            if let Some(entity) = self.entities.get(id) {
                let line = describe_entity(entity);
                proof {
                    lemma_texts_push(context@, line);
                }
                context.push(line);
                assert(texts(context@) =~= earlier + self@.entity_lines(id@));
            } else {
                assert(texts(context@) =~= earlier + self@.entity_lines(id@));
            }
            if i < from {
                if let Some(edges) = self.adj.get(id) {
                    tell_relationships(&mut context, edges);
                    assert(self@.outgoing(id@) == relationships(edges@));
                } else {
                    assert(relation_lines(self@.outgoing(id@)) =~= Seq::empty());
                }
            }
            proof {
                lemma_flatten_take_succ(blocks, i as int);
                assert(texts(context@) =~= earlier + blocks[i as int]);
            }
            i += 1;
        }
        assert(blocks.take(known.len() as int) =~= blocks);
        context
    }
}

} // verus!
