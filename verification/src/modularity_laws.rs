//! What propagation achieves in terms of modularity.

use vstd::prelude::*;
use crate::network::{own_labels, Network};
use crate::network_laws::law_labels_stay_in_component;
use crate::settling_laws::{
    enough_sweeps, has_no_negative_weights, has_positive_weights, has_unit, law_propagation_settles,
    lemma_adopted_pulls_most, lemma_no_pull,
};
use crate::sums::{
    column_sums, lemma_sum_add, lemma_sum_at_most, lemma_sum_exchange, lemma_sum_nonnegative,
    lemma_sum_same, lemma_sum_scale, lemma_sum_single, row_sums, sum,
};

verus! {

/// Every node carries a label below the number of nodes.
pub open spec fn labels_in_range(net: Network, labels: Seq<int>) -> bool {
    &&& labels.len() == net.size
    &&& forall|i: int| 0 <= i < net.size ==> 0 <= #[trigger] labels[i] < net.size
}

spec fn between_term(net: Network, labels: Seq<int>, c: int, d: int) -> spec_fn(int) -> int {
    |i: int|
        if labels[i] == c {
            net.pull(labels, i, d)
        } else {
            0
        }
}

/// The weight between the members of two communities, from the side of the first.
spec fn between(net: Network, labels: Seq<int>, c: int, d: int) -> int {
    sum(between_term(net, labels, c, d), net.size as int)
}

spec fn between_row(net: Network, labels: Seq<int>, c: int) -> spec_fn(int) -> int {
    |d: int| between(net, labels, c, d)
}

proof fn lemma_between_symmetric(net: Network, labels: Seq<int>, c: int, d: int)
    requires
        net.well_formed(),
    ensures
        between(net, labels, c, d) == between(net, labels, d, c),
{
    let n = net.size as int;
    let f = |i: int, j: int|
        if labels[i] == c && labels[j] == d {
            net.weight(i, j)
        } else {
            0
        };
    lemma_sum_exchange(f, n, n);
    assert forall|i: int| 0 <= i < n implies #[trigger] between_term(net, labels, c, d)(i)
        == row_sums(f, n)(i) by {
        let t = |j: int| f(i, j);
        if labels[i] == c {
            lemma_sum_same(net.pull_term(labels, i, d), t, n);
        } else {
            crate::sums::lemma_sum_zero(t, n);
        }
    }
    lemma_sum_same(between_term(net, labels, c, d), row_sums(f, n), n);
    assert forall|j: int| 0 <= j < n implies #[trigger] between_term(net, labels, d, c)(j)
        == column_sums(f, n)(j) by {
        let t = |i: int| f(i, j);
        if labels[j] == d {
            assert forall|i: int| 0 <= i < n implies #[trigger] net.pull_term(labels, j, c)(i)
                == t(i) by {
                assert(net.weight(i, j) == net.weight(j, i));
            }
            lemma_sum_same(net.pull_term(labels, j, c), t, n);
        } else {
            crate::sums::lemma_sum_zero(t, n);
        }
    }
    lemma_sum_same(between_term(net, labels, d, c), column_sums(f, n), n);
}

spec fn pulls(net: Network, labels: Seq<int>, i: int) -> spec_fn(int) -> int {
    |c: int| net.pull(labels, i, c)
}

/// The degree of a node is split up among the labels.
proof fn lemma_degree_split(net: Network, labels: Seq<int>, i: int)
    requires
        labels_in_range(net, labels),
    ensures
        net.degree(i) == sum(pulls(net, labels, i), net.size as int),
{
    let n = net.size as int;
    let f = |c: int, j: int|
        if labels[j] == c {
            net.weight(i, j)
        } else {
            0
        };
    lemma_sum_exchange(f, n, n);
    assert forall|c: int| 0 <= c < n implies #[trigger] pulls(net, labels, i)(c) == row_sums(f, n)(
        c,
    ) by {
        let t = |j: int| f(c, j);
        lemma_sum_same(net.pull_term(labels, i, c), t, n);
    }
    lemma_sum_same(pulls(net, labels, i), row_sums(f, n), n);
    assert forall|j: int| 0 <= j < n implies #[trigger] net.weight_from(i)(j) == column_sums(f, n)(
        j,
    ) by {
        let t = |c: int| f(c, j);
        assert(0 <= labels[j] < n);
        lemma_sum_single(t, n, labels[j]);
    }
    lemma_sum_same(net.weight_from(i), column_sums(f, n), n);
}

/// The degrees of a community are split up among the communities.
proof fn lemma_total_split(net: Network, labels: Seq<int>, c: int)
    requires
        labels_in_range(net, labels),
    ensures
        net.total_of(labels, c) == sum(between_row(net, labels, c), net.size as int),
{
    let n = net.size as int;
    let f = |d: int, i: int| between_term(net, labels, c, d)(i);
    lemma_sum_exchange(f, n, n);
    assert forall|d: int| 0 <= d < n implies #[trigger] between_row(net, labels, c)(d) == row_sums(
        f,
        n,
    )(d) by {
        let t = |i: int| f(d, i);
        lemma_sum_same(between_term(net, labels, c, d), t, n);
    }
    lemma_sum_same(between_row(net, labels, c), row_sums(f, n), n);
    assert forall|i: int| 0 <= i < n implies #[trigger] net.total_term(labels, c)(i) == column_sums(
        f,
        n,
    )(i) by {
        let t = |d: int| f(d, i);
        if labels[i] == c {
            lemma_degree_split(net, labels, i);
            lemma_sum_same(pulls(net, labels, i), t, n);
        } else {
            crate::sums::lemma_sum_zero(t, n);
        }
    }
    lemma_sum_same(net.total_term(labels, c), column_sums(f, n), n);
}

spec fn totals(net: Network, labels: Seq<int>) -> spec_fn(int) -> int {
    |c: int| net.total_of(labels, c)
}

spec fn insides(net: Network, labels: Seq<int>) -> spec_fn(int) -> int {
    |c: int| net.inside_of(labels, c)
}

/// The sum of all degrees is split up among the communities.
proof fn lemma_two_m_split(net: Network, labels: Seq<int>)
    requires
        labels_in_range(net, labels),
    ensures
        net.two_m() == sum(totals(net, labels), net.size as int),
{
    let n = net.size as int;
    let f = |c: int, i: int| net.total_term(labels, c)(i);
    lemma_sum_exchange(f, n, n);
    assert forall|c: int| 0 <= c < n implies #[trigger] totals(net, labels)(c) == row_sums(f, n)(
        c,
    ) by {
        let t = |i: int| f(c, i);
        lemma_sum_same(net.total_term(labels, c), t, n);
    }
    lemma_sum_same(totals(net, labels), row_sums(f, n), n);
    assert forall|i: int| 0 <= i < n implies #[trigger] net.degrees()(i) == column_sums(f, n)(
        i,
    ) by {
        let t = |c: int| f(c, i);
        assert(0 <= labels[i] < n);
        lemma_sum_single(t, n, labels[i]);
    }
    lemma_sum_same(net.degrees(), column_sums(f, n), n);
}

proof fn lemma_settled_pull(net: Network, labels: Seq<int>, i: int, d: int)
    requires
        net.well_formed(),
        has_no_negative_weights(net),
        net.settled(labels),
        0 <= i < net.size,
    ensures
        net.pull(labels, i, d) <= net.pull(labels, i, labels[i]),
{
    if net.has_neighbor(i) {
        assert(net.adopted(labels, i) == labels[i]);
        lemma_adopted_pulls_most(net, labels, i, d);
    } else {
        lemma_no_pull(net, labels, i, d);
        lemma_no_pull(net, labels, i, labels[i]);
    }
}

/// In settled labels, a community holds as much weight inside as it has with
/// any other community.
proof fn lemma_settled_between(net: Network, labels: Seq<int>, c: int, d: int)
    requires
        net.well_formed(),
        has_no_negative_weights(net),
        net.settled(labels),
        labels.len() == net.size,
    ensures
        between(net, labels, c, d) <= net.inside_of(labels, c),
{
    let n = net.size as int;
    assert forall|i: int| 0 <= i < n implies #[trigger] between_term(net, labels, c, d)(i)
        <= net.inside_term(labels, c)(i) by {
        if labels[i] == c {
            lemma_settled_pull(net, labels, i, d);
        }
    }
    lemma_sum_at_most(between_term(net, labels, c, d), net.inside_term(labels, c), n);
}

proof fn lemma_total_nonnegative(net: Network, labels: Seq<int>, c: int)
    requires
        has_no_negative_weights(net),
    ensures
        net.total_of(labels, c) >= 0,
{
    let n = net.size as int;
    assert forall|i: int| 0 <= i < n implies #[trigger] net.total_term(labels, c)(i) >= 0 by {
        assert forall|j: int| 0 <= j < n implies #[trigger] net.weight_from(i)(j) >= 0 by {
            if net.linked(i, j) {
            }
        }
        lemma_sum_nonnegative(net.weight_from(i), n);
    }
    lemma_sum_nonnegative(net.total_term(labels, c), n);
}

/// Settled labels of a network without negative weights have a modularity of at least zero.
pub proof fn law_settled_modularity_nonnegative(net: Network, labels: Seq<int>)
    requires
        net.well_formed(),
        has_no_negative_weights(net),
        labels_in_range(net, labels),
        net.settled(labels),
    ensures
        net.scaled_modularity(labels) >= 0,
{
    let n = net.size as int;
    let all_inside = sum(insides(net, labels), n);
    let m2 = net.two_m();
    let squares = |c: int| net.total_of(labels, c) * net.total_of(labels, c);
    let bounds = |c: int| all_inside * net.total_of(labels, c);
    assert forall|c: int| 0 <= c < n implies #[trigger] squares(c) <= bounds(c) by {
        lemma_total_split(net, labels, c);
        lemma_total_nonnegative(net, labels, c);
        assert forall|d: int| 0 <= d < n implies #[trigger] between_row(net, labels, c)(d)
            <= insides(net, labels)(d) by {
            lemma_between_symmetric(net, labels, c, d);
            lemma_settled_between(net, labels, d, c);
        }
        lemma_sum_at_most(between_row(net, labels, c), insides(net, labels), n);
        let t = net.total_of(labels, c);
        assert(t * t <= all_inside * t) by (nonlinear_arith)
            requires
                0 <= t <= all_inside,
        ;
    }
    lemma_sum_at_most(squares, bounds, n);
    lemma_sum_scale(totals(net, labels), bounds, all_inside, n);
    lemma_two_m_split(net, labels);
    let gains = |c: int| net.inside_of(labels, c) * m2;
    assert forall|c: int| 0 <= c < n implies #[trigger] gains(c) == m2 * insides(net, labels)(
        c,
    ) by {
        let x = net.inside_of(labels, c);
        assert(x * m2 == m2 * x) by (nonlinear_arith);
    }
    lemma_sum_scale(insides(net, labels), gains, m2, n);
    let losses = |c: int| -squares(c);
    lemma_sum_scale(squares, losses, -1, n);
    lemma_sum_add(gains, losses, net.share_term(labels), n);
    assert(m2 * all_inside == all_inside * m2) by (nonlinear_arith);
}

/// The partition into single nodes has a modularity of at most zero.
pub proof fn law_singletons_modularity_nonpositive(net: Network)
    requires
        net.well_formed(),
    ensures
        net.scaled_modularity(own_labels(net.size)) <= 0,
{
    let n = net.size as int;
    let own = own_labels(net.size);
    let zero = |c: int| 0int;
    assert forall|c: int| 0 <= c < n implies #[trigger] net.share_term(own)(c) <= zero(c) by {
        assert forall|i: int| 0 <= i < n implies #[trigger] net.inside_term(own, c)(i) == 0 by {
            if i == c {
                let t = net.pull_term(own, c, c);
                lemma_sum_single(t, n, c);
                assert(!net.linked(c, c));
            }
        }
        crate::sums::lemma_sum_zero(net.inside_term(own, c), n);
        let t = net.total_of(own, c);
        let m2 = net.two_m();
        assert(0 * m2 - t * t <= 0) by (nonlinear_arith);
    }
    lemma_sum_at_most(net.share_term(own), zero, n);
    crate::sums::lemma_sum_zero(zero, n);
}

/// The communities that propagation settles on have at least the modularity of
/// the partition into single nodes. Without a sweep they are that partition.
pub proof fn law_modularity_at_least_singletons(
    net: Network,
    ids: Seq<Seq<char>>,
    limit: nat,
)
    requires
        net.well_formed(),
        has_no_negative_weights(net),
        ids.len() == net.size,
        net.settled(net.communities(ids, limit)) || limit == 0,
    ensures
        net.scaled_modularity(net.communities(ids, limit)) >= net.scaled_modularity(
            own_labels(net.size),
        ),
{
    if limit > 0 {
        law_labels_stay_in_component(net, ids, limit);
        law_settled_modularity_nonnegative(net, net.communities(ids, limit));
        law_singletons_modularity_nonpositive(net);
    }
}

/// Given enough sweeps, detection never ends with less modularity than the
/// partition into single nodes.
pub proof fn law_detection_improves_modularity(
    net: Network,
    unit: int,
    ids: Seq<Seq<char>>,
    limit: nat,
)
    requires
        net.well_formed(),
        has_positive_weights(net),
        has_unit(net, unit),
        ids.len() == net.size,
        limit >= enough_sweeps(net, unit),
    ensures
        net.scaled_modularity(net.communities(ids, limit)) >= net.scaled_modularity(
            own_labels(net.size),
        ),
{
    law_propagation_settles(net, unit, ids, limit);
    law_modularity_at_least_singletons(net, ids, limit);
}

} // verus!
