//! Modularity, from the links and labels themselves.

use vstd::prelude::*;
use crate::model::GraphView;
use crate::network::Network;
use crate::scoring::Modularity;
use crate::sums::{lemma_sum_same, lemma_sum_zero, sum};

verus! {

/// The weight of a pair of nodes; zero where they are not linked.
spec fn pair_weight(net: Network, i: int, j: int) -> int {
    if net.links.contains_key((i, j)) {
        net.links[(i, j)]
    } else {
        0
    }
}

proof fn lemma_pair_weight(net: Network, i: int, j: int)
    ensures
        net.weight(i, j) == pair_weight(net, i, j),
{
    assert(net.linked(i, j) == net.links.contains_key((i, j)));
}

/// The sum of all degrees is the sum of the weights of all ordered pairs.
pub proof fn law_two_m_counts_all_pairs(net: Network)
    ensures
        net.two_m() == sum(
            |i: int|
                sum(
                    |j: int|
                        if net.links.contains_key((i, j)) {
                            net.links[(i, j)]
                        } else {
                            0
                        },
                    net.size as int,
                ),
            net.size as int,
        ),
{
    let n = net.size as int;
    let rows = |i: int|
        sum(
            |j: int|
                if net.links.contains_key((i, j)) {
                    net.links[(i, j)]
                } else {
                    0
                },
            n,
        );
    assert forall|i: int| 0 <= i < n implies #[trigger] net.degrees()(i) == rows(i) by {
        let row = |j: int|
            if net.links.contains_key((i, j)) {
                net.links[(i, j)]
            } else {
                0
            };
        assert forall|j: int| 0 <= j < n implies #[trigger] net.weight_from(i)(j) == row(j) by {
            lemma_pair_weight(net, i, j);
        }
        lemma_sum_same(net.weight_from(i), row, n);
    }
    lemma_sum_same(net.degrees(), rows, n);
}

/// The weight inside a community is the sum of the weights of the ordered pairs
/// with both nodes in it.
pub proof fn law_inside_counts_inner_pairs(net: Network, labels: Seq<int>, c: int)
    ensures
        net.inside_of(labels, c) == sum(
            |i: int|
                sum(
                    |j: int|
                        if net.links.contains_key((i, j)) && labels[i] == c && labels[j] == c {
                            net.links[(i, j)]
                        } else {
                            0
                        },
                    net.size as int,
                ),
            net.size as int,
        ),
{
    let n = net.size as int;
    let rows = |i: int|
        sum(
            |j: int|
                if net.links.contains_key((i, j)) && labels[i] == c && labels[j] == c {
                    net.links[(i, j)]
                } else {
                    0
                },
            n,
        );
    assert forall|i: int| 0 <= i < n implies #[trigger] net.inside_term(labels, c)(i) == rows(
        i,
    ) by {
        let row = |j: int|
            if net.links.contains_key((i, j)) && labels[i] == c && labels[j] == c {
                net.links[(i, j)]
            } else {
                0
            };
        if labels[i] == c {
            assert forall|j: int| 0 <= j < n implies #[trigger] net.pull_term(labels, i, c)(j)
                == row(j) by {
                lemma_pair_weight(net, i, j);
            }
            lemma_sum_same(net.pull_term(labels, i, c), row, n);
        } else {
            lemma_sum_zero(row, n);
        }
    }
    lemma_sum_same(net.inside_term(labels, c), rows, n);
}

/// The total of a community is the sum of the weights of the ordered pairs with
/// the first node in it.
pub proof fn law_total_counts_pairs_from_members(net: Network, labels: Seq<int>, c: int)
    ensures
        net.total_of(labels, c) == sum(
            |i: int|
                sum(
                    |j: int|
                        if net.links.contains_key((i, j)) && labels[i] == c {
                            net.links[(i, j)]
                        } else {
                            0
                        },
                    net.size as int,
                ),
            net.size as int,
        ),
{
    let n = net.size as int;
    let rows = |i: int|
        sum(
            |j: int|
                if net.links.contains_key((i, j)) && labels[i] == c {
                    net.links[(i, j)]
                } else {
                    0
                },
            n,
        );
    assert forall|i: int| 0 <= i < n implies #[trigger] net.total_term(labels, c)(i) == rows(
        i,
    ) by {
        let row = |j: int|
            if net.links.contains_key((i, j)) && labels[i] == c {
                net.links[(i, j)]
            } else {
                0
            };
        if labels[i] == c {
            assert forall|j: int| 0 <= j < n implies #[trigger] net.weight_from(i)(j) == row(
                j,
            ) by {
                lemma_pair_weight(net, i, j);
            }
            lemma_sum_same(net.weight_from(i), row, n);
        } else {
            lemma_sum_zero(row, n);
        }
    }
    lemma_sum_same(net.total_term(labels, c), rows, n);
}

/// A score names the sum of all degrees, and for every community with a member
/// its weight inside and its total. Without degrees it names no community.
pub proof fn law_score_names_each_community(
    m: Modularity,
    net: Network,
    labels: Seq<int>,
    c: usize,
)
    requires
        m.scores(net, labels),
    ensures
        m.two_m == net.two_m(),
        net.two_m() == 0 ==> !m.shares@.contains_key(c),
        net.two_m() != 0 ==> (m.shares@.contains_key(c) <==> exists|i: int|
            0 <= i < labels.len() && #[trigger] labels[i] == c),
        m.shares@.contains_key(c) ==> m.shares@[c].inside == net.inside_of(labels, c as int)
            && m.shares@[c].total == net.total_of(labels, c as int),
{
    if net.two_m() != 0 {
        assert(m.shares@.contains_key(c) <==> labels.contains(c as int));
    }
}

/// The labels of the entities are taken identifier by identifier.
pub proof fn law_labels_go_by_identifier(g: GraphView, labels: Map<Seq<char>, usize>, i: int)
    ensures
        g.labelling(labels).len() == g.ids().len(),
        g.stored_labels().len() == g.ids().len(),
        0 <= i < g.ids().len() ==> g.labelling(labels)[i] == labels[g.ids()[i]],
        0 <= i < g.ids().len() ==> g.stored_labels()[i] == g.entities[g.ids()[i]].community_id,
{
}

} // verus!
