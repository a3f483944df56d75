//! The relationships of a graph as one collection.

use vstd::prelude::*;
use vstd::seq_lib::{lemma_flatten_concat, lemma_multiset_commutative};
use crate::collation::{
    in_order, lemma_ascending_no_duplicates, lemma_ascending_unique, lemma_in_order, text_before,
};
use crate::model::{GraphView, RelationshipView};

verus! {

/// A concatenation, taken apart at one of its pieces.
pub proof fn lemma_flatten_split<A>(s: Seq<Seq<A>>, p: int)
    requires
        0 <= p < s.len(),
    ensures
        s.flatten() == s.take(p).flatten() + s[p] + s.skip(p + 1).flatten(),
{
    let mid = seq![s[p]];
    assert(s =~= s.take(p) + (mid + s.skip(p + 1)));
    lemma_flatten_concat(s.take(p), mid + s.skip(p + 1));
    lemma_flatten_concat(mid, s.skip(p + 1));
    mid.lemma_flatten_one_element();
    assert(s.flatten() =~= s.take(p).flatten() + s[p] + s.skip(p + 1).flatten());
}

pub proof fn lemma_flatten_take_succ<A>(s: Seq<Seq<A>>, p: int)
    requires
        0 <= p < s.len(),
    ensures
        s.take(p + 1).flatten() == s.take(p).flatten() + s[p],
{
    lemma_flatten_split(s.take(p + 1), p);
    assert(s.take(p + 1).take(p) =~= s.take(p));
    assert(s.take(p + 1).skip(p + 1) =~= Seq::empty());
    assert(Seq::<Seq<A>>::empty().flatten() =~= Seq::<A>::empty());
    assert(s.take(p + 1).flatten() =~= s.take(p).flatten() + s[p]);
}

/// What holds of every element of the pieces holds of the concatenation.
pub proof fn lemma_flatten_all<A>(s: Seq<Seq<A>>, f: spec_fn(A) -> bool)
    requires
        forall|i: int, j: int| 0 <= i < s.len() && 0 <= j < s[i].len() ==> f(#[trigger] s[i][j]),
    ensures
        forall|k: int| 0 <= k < s.flatten().len() ==> f(#[trigger] s.flatten()[k]),
    decreases s.len(),
{
    if s.len() > 0 {
        let p = s.len() - 1;
        let rest = s.take(p);
        assert forall|i: int, j: int| 0 <= i < rest.len() && 0 <= j < rest[i].len() implies f(
            #[trigger] rest[i][j],
        ) by {
            assert(rest[i] == s[i]);
            assert(f(s[i][j]));
        }
        lemma_flatten_all(rest, f);
        lemma_flatten_take_succ(s, p);
        assert(s.take(p + 1) =~= s);
        assert forall|k: int| 0 <= k < s.flatten().len() implies f(#[trigger] s.flatten()[k]) by {
            if k < rest.flatten().len() {
                assert(s.flatten()[k] == rest.flatten()[k]);
            } else {
                assert(s.flatten()[k] == s[p][k - rest.flatten().len()]);
            }
        }
    } else {
        assert(s =~= Seq::empty());
    }
}

/// A concatenation holds what one of its pieces holds.
pub proof fn lemma_flatten_contains<A>(s: Seq<Seq<A>>, x: A)
    ensures
        s.flatten().contains(x) <==> exists|i: int| 0 <= i < s.len() && (#[trigger] s[i]).contains(
            x,
        ),
    decreases s.len(),
{
    if s.len() > 0 {
        let p = s.len() - 1;
        let rest = s.take(p);
        lemma_flatten_contains(rest, x);
        lemma_flatten_take_succ(s, p);
        assert(s.take(p + 1) =~= s);
        let all = s.flatten();
        let head = rest.flatten();
        if all.contains(x) {
            let k = choose|k: int| 0 <= k < all.len() && all[k] == x;
            if k < head.len() {
                assert(head[k] == x);
                let i = choose|i: int| 0 <= i < rest.len() && (#[trigger] rest[i]).contains(x);
                assert(s[i].contains(x));
            } else {
                assert(s[p][k - head.len()] == x);
            }
        }
        if exists|i: int| 0 <= i < s.len() && (#[trigger] s[i]).contains(x) {
            let i = choose|i: int| 0 <= i < s.len() && (#[trigger] s[i]).contains(x);
            if i < p {
                assert(rest[i].contains(x));
                let k = choose|k: int| 0 <= k < head.len() && head[k] == x;
                assert(all[k] == x);
            } else {
                let k = choose|k: int| 0 <= k < s[p].len() && s[p][k] == x;
                assert(all[head.len() + k] == x);
            }
        }
    } else {
        assert(s =~= Seq::empty());
    }
}

proof fn lemma_multiset_around(
    a: Seq<RelationshipView>,
    x: Seq<RelationshipView>,
    b: Seq<RelationshipView>,
    e: RelationshipView,
)
    ensures
        (a + x.push(e) + b).to_multiset() == (a + x + b).to_multiset().insert(e),
{
    broadcast use vstd::seq_lib::group_to_multiset_ensures;

    lemma_multiset_commutative(a + x.push(e), b);
    lemma_multiset_commutative(a, x.push(e));
    lemma_multiset_commutative(a + x, b);
    lemma_multiset_commutative(a, x);
    assert((a + x.push(e) + b).to_multiset() =~= (a + x + b).to_multiset().insert(e));
}

/// Where a new text stands among the others, the others keep their order.
pub proof fn lemma_in_order_insert(texts: Set<Seq<char>>, t: Seq<char>)
    requires
        texts.finite(),
        !texts.contains(t),
    ensures
        ({
            let all = in_order(texts.insert(t));
            let p = all.index_of(t);
            &&& 0 <= p < all.len()
            &&& all[p] == t
            &&& in_order(texts) == all.remove(p)
        }),
{
    lemma_in_order(texts);
    lemma_in_order(texts.insert(t));
    let all = in_order(texts.insert(t));
    assert(texts.insert(t).contains(t));
    assert(all.contains(t));
    let p = all.index_of(t);
    let rest = all.remove(p);
    lemma_ascending_no_duplicates(all);
    assert forall|i: int, j: int| 0 <= i < j < rest.len() implies text_before(rest[i], rest[j]) by {
        let i2 = if i < p {
            i
        } else {
            i + 1
        };
        let j2 = if j < p {
            j
        } else {
            j + 1
        };
        assert(text_before(all[i2], all[j2]));
    }
    assert forall|u: Seq<char>| rest.contains(u) <==> in_order(texts).contains(u) by {
        if rest.contains(u) {
            let i = choose|i: int| 0 <= i < rest.len() && rest[i] == u;
            let i2 = if i < p {
                i
            } else {
                i + 1
            };
            assert(all[i2] == u);
            assert(all.contains(u));
            assert(texts.insert(t).contains(u));
            assert(u != t);
            assert(texts.contains(u));
        }
        if in_order(texts).contains(u) {
            assert(texts.insert(t).contains(u));
            assert(all.contains(u));
            let i = choose|i: int| 0 <= i < all.len() && all[i] == u;
            let i2 = if i < p {
                i
            } else {
                i - 1
            };
            assert(rest[i2] == u);
        }
    }
    lemma_ascending_unique(rest, in_order(texts));
}

/// Storing a relationship adds exactly that relationship to the graph.
pub proof fn law_relationship_added(g: GraphView, edge: RelationshipView)
    requires
        g.finite(),
    ensures
        g.with_relationship(edge).edges().to_multiset() == g.edges().to_multiset().insert(edge),
        g.with_relationship(edge).edges().len() == g.edges().len() + 1,
{
    broadcast use vstd::seq_lib::group_to_multiset_ensures;

    let h = g.with_relationship(edge);
    let k = edge.source;
    let gk = in_order(g.adj.dom());
    let hk = in_order(h.adj.dom());
    let gl = gk.map_values(|t: Seq<char>| g.adj[t]);
    let hl = hk.map_values(|t: Seq<char>| h.adj[t]);
    lemma_in_order(g.adj.dom());
    lemma_ascending_no_duplicates(gk);
    if g.adj.contains_key(k) {
        assert(h.adj.dom() =~= g.adj.dom());
        assert(gk.contains(k));
        let p = gk.index_of(k);
        lemma_flatten_split(gl, p);
        lemma_flatten_split(hl, p);
        assert forall|i: int| 0 <= i < gk.len() && i != p implies hl[i] == gl[i] by {
            assert(gk[i] != gk[p]);
        }
        assert(hl.take(p) =~= gl.take(p));
        assert(hl.skip(p + 1) =~= gl.skip(p + 1));
        lemma_multiset_around(gl.take(p).flatten(), gl[p], gl.skip(p + 1).flatten(), edge);
    } else {
        assert(h.adj.dom() =~= g.adj.dom().insert(k));
        lemma_in_order_insert(g.adj.dom(), k);
        let p = hk.index_of(k);
        lemma_in_order(h.adj.dom());
        lemma_ascending_no_duplicates(hk);
        lemma_flatten_split(hl, p);
        assert(hl[p] =~= Seq::<RelationshipView>::empty().push(edge));
        assert forall|i: int| 0 <= i < p implies hl[i] == gl[i] by {
            assert(gk[i] == hk[i]);
            assert(hk[i] != hk[p]);
        }
        assert forall|i: int| p < i < hk.len() implies hl[i] == gl[i - 1] by {
            assert(gk[i - 1] == hk[i]);
            assert(hk[i] != hk[p]);
        }
        assert(hl.take(p) =~= gl.take(p));
        assert(hl.skip(p + 1) =~= gl.skip(p));
        assert(gl =~= gl.take(p) + gl.skip(p));
        lemma_flatten_concat(gl.take(p), gl.skip(p));
        let none = Seq::<RelationshipView>::empty();
        lemma_multiset_around(gl.take(p).flatten(), none, gl.skip(p).flatten(), edge);
        assert(gl.take(p).flatten() + none + gl.skip(p).flatten() =~= g.edges());
    }
    assert(h.edges().len() == h.edges().to_multiset().len());
    assert(g.edges().len() == g.edges().to_multiset().len());
}

} // verus!
