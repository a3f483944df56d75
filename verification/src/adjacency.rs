//! Collecting the links of a network, relationship by relationship.

use std::collections::HashMap;
use vstd::prelude::*;
use crate::graph::MAX_RELATIONSHIPS;
use crate::model::{joined, joins, network_of, weight_between, RelationshipView};
use crate::network::Network;
use crate::propagation::{ends, row_lists, rows_list, Link, BULK_LIMIT};
use crate::sums::{
    lemma_sum_at_least_term, lemma_sum_change, lemma_sum_nonnegative, lemma_sum_same,
    lemma_sum_zero, magnitude,
};

verus! {

proof fn lemma_weight_between_symmetric(edges: Seq<RelationshipView>, a: Seq<char>, b: Seq<char>)
    ensures
        weight_between(edges, a, b) == weight_between(edges, b, a),
    decreases edges.len(),
{
    if edges.len() > 0 {
        lemma_weight_between_symmetric(edges.drop_last(), a, b);
    }
}

pub proof fn lemma_network_well_formed(ids: Seq<Seq<char>>, edges: Seq<RelationshipView>)
    ensures
        network_of(ids, edges).well_formed(),
{
    let net = network_of(ids, edges);
    assert forall|i: int, j: int| #[trigger] net.linked(i, j) implies net.linked(j, i) by {
        let k = choose|k: int| 0 <= k < edges.len() && joins(#[trigger] edges[k], ids[i], ids[j]);
        assert(joins(edges[k], ids[j], ids[i]));
    }
    assert forall|i: int, j: int| #[trigger] net.weight(i, j) == net.weight(j, i) by {
        if net.linked(i, j) {
            assert(net.linked(j, i));
        }
        if net.linked(j, i) {
            assert(net.linked(i, j));
            lemma_weight_between_symmetric(edges, ids[i], ids[j]);
        }
    }
}

pub proof fn lemma_weight_zero_unless_joined(
    edges: Seq<RelationshipView>,
    a: Seq<char>,
    b: Seq<char>,
)
    requires
        !joined(edges, a, b),
    ensures
        weight_between(edges, a, b) == 0,
    decreases edges.len(),
{
    if edges.len() > 0 {
        assert(!joins(edges[edges.len() - 1], a, b));
        assert(!joined(edges.drop_last(), a, b)) by {
            if joined(edges.drop_last(), a, b) {
                let k = choose|k: int|
                    0 <= k < edges.drop_last().len() && joins(
                        #[trigger] edges.drop_last()[k],
                        a,
                        b,
                    );
                assert(joins(edges[k], a, b));
            }
        }
        lemma_weight_zero_unless_joined(edges.drop_last(), a, b);
    }
}

/// What one more relationship does to the links of a pair.
pub proof fn lemma_network_push(
    ids: Seq<Seq<char>>,
    edges: Seq<RelationshipView>,
    edge: RelationshipView,
    i: int,
    j: int,
)
    requires
        0 <= i < ids.len(),
        0 <= j < ids.len(),
        i != j,
    ensures
        network_of(ids, edges.push(edge)).linked(i, j) == (network_of(ids, edges).linked(i, j)
            || joins(edge, ids[i], ids[j])),
        network_of(ids, edges.push(edge)).weight(i, j) == network_of(ids, edges).weight(i, j) + (
        if joins(edge, ids[i], ids[j]) {
            edge.weight
        } else {
            0
        }),
{
    let more = edges.push(edge);
    let a = ids[i];
    let b = ids[j];
    assert(more.drop_last() =~= edges);
    if joined(edges, a, b) {
        let k = choose|k: int| 0 <= k < edges.len() && joins(#[trigger] edges[k], a, b);
        assert(joins(more[k], a, b));
    } else {
        lemma_weight_zero_unless_joined(edges, a, b);
    }
    if joins(edge, a, b) {
        assert(joins(more[edges.len() as int], a, b));
    }
    if joined(more, a, b) {
        let k = choose|k: int| 0 <= k < more.len() && joins(#[trigger] more[k], a, b);
        if k < edges.len() {
            assert(joins(edges[k], a, b));
        }
    } else {
        lemma_weight_zero_unless_joined(more, a, b);
    }
}

/// A relationship of an entity with itself, or with an entity not listed,
/// leaves the network as it is.
pub proof fn lemma_network_push_ignored(
    ids: Seq<Seq<char>>,
    edges: Seq<RelationshipView>,
    edge: RelationshipView,
)
    requires
        ids.no_duplicates(),
        edge.source == edge.target || !ids.contains(edge.source) || !ids.contains(edge.target),
    ensures
        network_of(ids, edges.push(edge)) == network_of(ids, edges),
{
    let a = network_of(ids, edges.push(edge));
    let b = network_of(ids, edges);
    assert forall|p: (int, int)| #[trigger]
        a.links.dom().contains(p) == b.links.dom().contains(p) && (a.links.dom().contains(p)
            ==> a.links[p] == b.links[p]) by {
        if 0 <= p.0 < ids.len() && 0 <= p.1 < ids.len() && p.0 != p.1 {
            lemma_network_push(ids, edges, edge, p.0, p.1);
            assert(!joins(edge, ids[p.0], ids[p.1]));
            assert(a.linked(p.0, p.1) == b.linked(p.0, p.1));
            assert(a.weight(p.0, p.1) == b.weight(p.0, p.1));
            assert(p == (p.0, p.1));
        }
    }
    assert(a.links.dom() =~= b.links.dom());
    assert(a.links =~= b.links);
}

/// No weight is larger than the bulk.
pub proof fn lemma_weight_within_bulk(net: Network, i: int, j: int)
    requires
        0 <= i < net.size,
        0 <= j < net.size,
    ensures
        magnitude(net.weight(i, j)) <= net.bulk(),
{
    let n = net.size as int;
    assert forall|a: int| 0 <= a < n implies #[trigger] net.row_magnitude()(a) >= 0 by {
        lemma_sum_nonnegative(net.magnitude_term(a), n);
    }
    lemma_sum_at_least_term(net.row_magnitude(), n, i);
    lemma_sum_at_least_term(net.magnitude_term(i), n, j);
}

/// One more relationship adds at most twice its magnitude to the bulk.
pub proof fn lemma_bulk_push(
    ids: Seq<Seq<char>>,
    edges: Seq<RelationshipView>,
    edge: RelationshipView,
)
    requires
        ids.no_duplicates(),
    ensures
        network_of(ids, edges.push(edge)).bulk() <= network_of(ids, edges).bulk() + 2 * magnitude(
            edge.weight,
        ),
{
    let before = network_of(ids, edges);
    let after = network_of(ids, edges.push(edge));
    let n = ids.len() as int;
    if edge.source == edge.target || !ids.contains(edge.source) || !ids.contains(edge.target) {
        lemma_network_push_ignored(ids, edges, edge);
    } else {
        let i = ids.index_of(edge.source);
        let j = ids.index_of(edge.target);
        assert(ids[i] == edge.source);
        assert(ids[j] == edge.target);
        assert forall|a: int, b: int| 0 <= a < n && 0 <= b < n implies #[trigger] after.weight(
            a,
            b,
        ) == before.weight(a, b) + (if (a == i && b == j) || (a == j && b == i) {
            edge.weight
        } else {
            0
        }) by {
            if a != b {
                lemma_network_push(ids, edges, edge, a, b);
            }
        }
        let f = before.row_magnitude();
        let g = after.row_magnitude();
        assert forall|a: int| 0 <= a < n && a != i && a != j implies #[trigger] f(a) == g(a) by {
            assert forall|b: int| 0 <= b < n implies #[trigger] before.magnitude_term(a)(b)
                == after.magnitude_term(a)(b) by {
                assert(after.weight(a, b) == before.weight(a, b));
            }
            lemma_sum_same(before.magnitude_term(a), after.magnitude_term(a), n);
        }
        lemma_row_change(before, after, edge.weight, i, j);
        lemma_row_change(before, after, edge.weight, j, i);
        let mid = |a: int|
            if a == i {
                g(a)
            } else {
                f(a)
            };
        lemma_sum_change(f, mid, n, i);
        lemma_sum_change(mid, g, n, j);
    }
}

proof fn lemma_row_change(before: Network, after: Network, weight: int, a: int, b: int)
    requires
        before.size == after.size,
        0 <= a < before.size,
        0 <= b < before.size,
        after.weight(a, b) == before.weight(a, b) + weight,
        forall|c: int|
            0 <= c < before.size && c != b ==> #[trigger] after.weight(a, c) == before.weight(a, c),
    ensures
        after.row_magnitude()(a) <= before.row_magnitude()(a) + magnitude(weight),
{
    let n = before.size as int;
    let f = before.magnitude_term(a);
    let g = after.magnitude_term(a);
    assert forall|c: int| 0 <= c < n && c != b implies #[trigger] f(c) == g(c) by {
        assert(after.weight(a, c) == before.weight(a, c));
    }
    lemma_sum_change(f, g, n, b);
}

/// The bulk of a network stays within the magnitudes of the relationships.
pub proof fn lemma_bulk_bound(ids: Seq<Seq<char>>, edges: Seq<RelationshipView>, most: int)
    requires
        ids.no_duplicates(),
        forall|k: int| 0 <= k < edges.len() ==> magnitude((#[trigger] edges[k]).weight) <= most,
    ensures
        network_of(ids, edges).bulk() <= 2 * most * edges.len(),
    decreases edges.len(),
{
    if edges.len() == 0 {
        let net = network_of(ids, edges);
        assert forall|a: int| 0 <= a < ids.len() implies #[trigger] net.row_magnitude()(a)
            == 0 by {
            assert forall|b: int| 0 <= b < ids.len() implies #[trigger] net.magnitude_term(a)(b)
                == 0 by {
                assert(!net.linked(a, b));
            }
            lemma_sum_zero(net.magnitude_term(a), ids.len() as int);
        }
        lemma_sum_zero(net.row_magnitude(), ids.len() as int);
        assert(2 * most * edges.len() == 0) by (nonlinear_arith)
            requires
                edges.len() == 0,
        ;
    } else {
        let fewer = edges.drop_last();
        assert forall|k: int| 0 <= k < fewer.len() implies magnitude((#[trigger] fewer[k]).weight)
            <= most by {
            assert(fewer[k] == edges[k]);
        }
        lemma_bulk_bound(ids, fewer, most);
        assert(fewer.push(edges.last()) =~= edges);
        lemma_bulk_push(ids, fewer, edges.last());
        assert(edges[edges.len() - 1] == edges.last());
        assert(2 * most * edges.len() == 2 * most * fewer.len() + 2 * most) by (nonlinear_arith)
            requires
                edges.len() == fewer.len() + 1,
        ;
    }
}

/// The seats tell, for every neighbor in a row, where in the row it stands.
pub open spec fn seated(seats: Map<usize, usize>, row: Seq<Link>) -> bool {
    &&& forall|node: usize| #[trigger] seats.contains_key(node) ==> seats[node] < row.len()
        && row[seats[node] as int].node == node
    &&& forall|e: int| 0 <= e < row.len() ==> seats.contains_key((#[trigger] row[e]).node)
}

/// Every row has its seats.
pub open spec fn all_seated(seats: Seq<HashMap<usize, usize>>, rows: Seq<Vec<Link>>) -> bool {
    &&& seats.len() == rows.len()
    &&& forall|i: int| 0 <= i < rows.len() ==> seated(#[trigger] seats[i]@, rows[i]@)
}

/// Adds a weight to the link with a neighbor; makes the link where there is none.
pub(crate) fn add_link(
    row: &mut Vec<Link>,
    seats: &mut HashMap<usize, usize>,
    node: usize,
    weight: i128,
    Ghost(before): Ghost<Network>,
    Ghost(after): Ghost<Network>,
    Ghost(i): Ghost<int>,
)
    requires
        row_lists(old(row)@, before, i),
        seated(old(seats)@, old(row)@),
        after.linked(i, node as int),
        after.weight(i, node as int) == before.weight(i, node as int) + weight,
        magnitude(after.weight(i, node as int)) <= BULK_LIMIT,
        forall|j: int|
            j != node ==> #[trigger] after.linked(i, j) == before.linked(i, j) && after.weight(i, j)
                == before.weight(i, j),
    ensures
        row_lists(final(row)@, after, i),
        seated(final(seats)@, final(row)@),
{
    broadcast use vstd::std_specs::hash::group_hash_axioms;

    let ghost start = row@;
    let seat: Option<usize> = match seats.get(&node) {
        Some(seat) => Some(*seat),
        None => None,
    };
    match seat {
        Some(e) => {
            let link = row[e];
            assert(before.linked(i, start[e as int].node as int));
            row[e] = Link { node, weight: link.weight + weight };
            proof {
                assert(ends(row@) =~= ends(start));
                assert forall|k: int| 0 <= k < row@.len() implies after.linked(
                    i,
                    (#[trigger] row@[k]).node as int,
                ) && row@[k].weight == after.weight(i, row@[k].node as int) by {
                    if k != e {
                        assert(row@[k] == start[k]);
                        assert(ends(start)[k] != ends(start)[e as int]);
                        assert(before.linked(i, start[k].node as int));
                        assert(after.linked(i, start[k].node as int));
                    }
                }
                assert forall|j: int| #[trigger] after.linked(i, j) implies ends(row@).contains(
                    j,
                ) by {
                    if j == node {
                        assert(ends(row@)[e as int] == j);
                    } else {
                        assert(before.linked(i, j));
                    }
                }
                assert forall|k: int| 0 <= k < row@.len() implies seats@.contains_key(
                    (#[trigger] row@[k]).node,
                ) by {
                    assert(row@[k].node == start[k].node);
                }
            }
        },
        None => {
            proof {
                if before.linked(i, node as int) {
                    assert(ends(start).contains(node as int));
                    let k = choose|k: int| 0 <= k < ends(start).len() && ends(start)[k] == node;
                    assert(start[k].node == node);
                }
                assert(before.weight(i, node as int) == 0);
            }
            seats.insert(node, row.len());
            row.push(Link { node, weight });
            proof {
                assert(ends(row@) =~= ends(start).push(node as int));
                assert forall|k: int| 0 <= k < row@.len() implies after.linked(
                    i,
                    (#[trigger] row@[k]).node as int,
                ) && row@[k].weight == after.weight(i, row@[k].node as int) by {
                    if k < start.len() {
                        assert(row@[k] == start[k]);
                        assert(seats@.contains_key(start[k].node));
                        assert(before.linked(i, start[k].node as int));
                        assert(after.linked(i, start[k].node as int));
                    }
                }
                assert forall|j: int| #[trigger] after.linked(i, j) implies ends(row@).contains(
                    j,
                ) by {
                    if j == node {
                        assert(ends(row@)[start.len() as int] == j);
                    } else {
                        assert(before.linked(i, j));
                        let k = choose|k: int| 0 <= k < ends(start).len() && ends(start)[k] == j;
                        assert(ends(row@)[k] == j);
                    }
                }
                assert forall|x: int, y: int|
                    0 <= x < ends(row@).len() && 0 <= y < ends(row@).len() && x != y implies ends(
                    row@,
                )[x] != ends(row@)[y] by {
                    if x < start.len() && y < start.len() {
                        assert(ends(start)[x] != ends(start)[y]);
                    } else if x < start.len() {
                        assert(start[x].node != node);
                    } else {
                        assert(start[y].node != node);
                    }
                }
                assert forall|m: usize| #[trigger] seats@.contains_key(m) implies seats@[m]
                    < row@.len() && row@[seats@[m] as int].node == m by {
                    if m != node {
                        assert(row@[seats@[m] as int] == start[seats@[m] as int]);
                    }
                }
                assert forall|k: int| 0 <= k < row@.len() implies seats@.contains_key(
                    (#[trigger] row@[k]).node,
                ) by {
                    if k < start.len() {
                        assert(row@[k] == start[k]);
                    }
                }
            }
        },
    }
}

/// The largest magnitude of a weight.
pub open spec fn largest_weight() -> int {
    0x8000_0000_0000_0000
}

/// The weights of the relationships are those of stored relationships, and the
/// relationships are within their number.
pub open spec fn within_limits(edges: Seq<RelationshipView>) -> bool {
    &&& edges.len() <= MAX_RELATIONSHIPS
    &&& forall|k: int|
        0 <= k < edges.len() ==> magnitude((#[trigger] edges[k]).weight) <= largest_weight()
}

pub proof fn lemma_bulk_within_limit(ids: Seq<Seq<char>>, edges: Seq<RelationshipView>)
    requires
        ids.no_duplicates(),
        within_limits(edges),
    ensures
        network_of(ids, edges).bulk() <= BULK_LIMIT,
{
    lemma_bulk_bound(ids, edges, largest_weight());
    assert(2 * largest_weight() * edges.len() <= BULK_LIMIT) by (nonlinear_arith)
        requires
            edges.len() <= MAX_RELATIONSHIPS,
    ;
}

/// Takes a relationship between two entities, at positions `i` and `j`, into
/// the rows of both.
pub(crate) fn add_edge(
    rows: &mut Vec<Vec<Link>>,
    seats: &mut Vec<HashMap<usize, usize>>,
    i: usize,
    j: usize,
    weight: i64,
    Ghost(ids): Ghost<Seq<Seq<char>>>,
    Ghost(done): Ghost<Seq<RelationshipView>>,
    Ghost(edge): Ghost<RelationshipView>,
)
    requires
        ids.no_duplicates(),
        i < ids.len(),
        j < ids.len(),
        i != j,
        ids[i as int] == edge.source,
        ids[j as int] == edge.target,
        edge.weight == weight,
        within_limits(done.push(edge)),
        rows_list(old(rows)@, network_of(ids, done)),
        all_seated(old(seats)@, old(rows)@),
    ensures
        rows_list(final(rows)@, network_of(ids, done.push(edge))),
        all_seated(final(seats)@, final(rows)@),
{
    let ghost before = network_of(ids, done);
    let ghost after = network_of(ids, done.push(edge));
    let ghost start = rows@;
    proof {
        lemma_network_well_formed(ids, done.push(edge));
        lemma_bulk_within_limit(ids, done.push(edge));
        lemma_weight_within_bulk(after, i as int, j as int);
        lemma_weight_within_bulk(after, j as int, i as int);
        assert forall|a: int, b: int|
            after.linked(a, b) == (before.linked(a, b) || (a == i && b == j) || (a == j && b == i))
                && #[trigger] after.weight(a, b) == before.weight(a, b) + (if (a == i && b == j)
                || (a == j && b == i) {
                weight as int
            } else {
                0
            }) by {
            if 0 <= a < ids.len() && 0 <= b < ids.len() && a != b {
                lemma_network_push(ids, done, edge, a, b);
            }
        }
        assert forall|b: int| b != j implies #[trigger] after.linked(i as int, b) == before.linked(
            i as int,
            b,
        ) && after.weight(i as int, b) == before.weight(i as int, b) by {
            let w = after.weight(i as int, b);
        }
        assert forall|b: int| b != i implies #[trigger] after.linked(j as int, b) == before.linked(
            j as int,
            b,
        ) && after.weight(j as int, b) == before.weight(j as int, b) by {
            let w = after.weight(j as int, b);
        }
        assert(row_lists(start[i as int]@, before, i as int));
        assert(row_lists(start[j as int]@, before, j as int));
        let w = after.weight(i as int, j as int);
        let w2 = after.weight(j as int, i as int);
    }
    assert(seated(seats@[i as int]@, start[i as int]@));
    assert(seated(seats@[j as int]@, start[j as int]@));
    let w: i128 = weight as i128;
    add_link(&mut rows[i], &mut seats[i], j, w, Ghost(before), Ghost(after), Ghost(i as int));
    add_link(&mut rows[j], &mut seats[j], i, w, Ghost(before), Ghost(after), Ghost(j as int));
    proof {
        assert forall|a: int| 0 <= a < rows@.len() implies row_lists(
            #[trigger] rows@[a]@,
            after,
            a,
        ) by {
            if a != i && a != j {
                assert(rows@[a] == start[a]);
                assert(row_lists(start[a]@, before, a));
                assert forall|b: int| #[trigger] after.linked(a, b) == before.linked(a, b)
                    && after.weight(a, b) == before.weight(a, b) by {
                    let w = after.weight(a, b);
                }
            }
        }
    }
}

} // verus!
