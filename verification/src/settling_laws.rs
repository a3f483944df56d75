//! Label propagation settles.

use vstd::prelude::*;
use crate::network::{own_labels, places, Network};
use crate::network_laws::{
    labels_within_components, law_heaviest_exists, law_idle_sweep_means_settled,
    law_labels_stay_in_component, lemma_visits_within_components,
};
use crate::sums::{
    lemma_sum_add, lemma_sum_at_least_term, lemma_sum_at_most, lemma_sum_change,
    lemma_sum_multiple, lemma_sum_nonnegative, lemma_sum_same, lemma_sum_zero,
    lemma_zero_is_multiple, sum,
};
use crate::sweep::{is_listing, law_sweep_visits_each_once, sweep_order};

verus! {

/// Every link has a positive weight.
pub open spec fn has_positive_weights(net: Network) -> bool {
    forall|i: int, j: int| #[trigger] net.linked(i, j) ==> net.weight(i, j) > 0
}

/// No link has a negative weight.
pub open spec fn has_no_negative_weights(net: Network) -> bool {
    forall|i: int, j: int| #[trigger] net.linked(i, j) ==> net.weight(i, j) >= 0
}

pub open spec fn kept_weight(net: Network, labels: Seq<int>) -> spec_fn(int) -> int {
    |i: int| net.pull(labels, i, labels[i])
}

/// The weight that lies within communities, counted from both ends.
pub open spec fn inside_weight(net: Network, labels: Seq<int>) -> int {
    sum(kept_weight(net, labels), net.size as int)
}

pub open spec fn label_at(labels: Seq<int>) -> spec_fn(int) -> int {
    |i: int| labels[i]
}

pub open spec fn label_total(labels: Seq<int>) -> int {
    sum(label_at(labels), labels.len() as int)
}

/// Every weight is a multiple of the unit.
pub open spec fn has_unit(net: Network, unit: int) -> bool {
    &&& unit > 0
    &&& forall|i: int, j: int| #[trigger] net.linked(i, j) ==> net.weight(i, j) % unit == 0
}

/// Grows by at least two units with every label that a visit changes.
pub open spec fn progress(net: Network, unit: int, labels: Seq<int>) -> int {
    inside_weight(net, labels) * net.size - 2 * unit * label_total(labels)
}

/// A number of sweeps within which propagation settles, where every weight is
/// a multiple of the unit.
pub open spec fn enough_sweeps(net: Network, unit: int) -> int {
    net.bulk() * net.size / (2 * unit) + net.size * (net.size - 1) / 2
}

pub proof fn lemma_pull_nonnegative(net: Network, labels: Seq<int>, i: int, label: int)
    requires
        has_no_negative_weights(net),
    ensures
        net.pull(labels, i, label) >= 0,
{
    let term = net.pull_term(labels, i, label);
    assert forall|j: int| 0 <= j < net.size implies #[trigger] term(j) >= 0 by {
        if net.linked(i, j) {
        }
    }
    lemma_sum_nonnegative(term, net.size as int);
}

/// A label that no neighbor carries has no pull.
pub proof fn lemma_no_pull(net: Network, labels: Seq<int>, i: int, label: int)
    requires
        forall|j: int| #[trigger] net.linked(i, j) ==> labels[j] != label,
    ensures
        net.pull(labels, i, label) == 0,
{
    let term = net.pull_term(labels, i, label);
    assert forall|j: int| 0 <= j < net.size implies #[trigger] term(j) == 0 by {
        if net.linked(i, j) {
        }
    }
    lemma_sum_zero(term, net.size as int);
}

/// The adopted label pulls at least as hard as any label.
pub proof fn lemma_adopted_pulls_most(net: Network, labels: Seq<int>, i: int, label: int)
    requires
        net.well_formed(),
        has_no_negative_weights(net),
        net.has_neighbor(i),
    ensures
        net.pull(labels, i, label) <= net.pull(labels, i, net.adopted(labels, i)),
{
    let best = net.adopted(labels, i);
    law_heaviest_exists(net, labels, i);
    lemma_pull_nonnegative(net, labels, i, best);
    if exists|m: int| #[trigger] net.linked(i, m) && labels[m] == label {
        let m = choose|m: int| #[trigger] net.linked(i, m) && labels[m] == label;
        assert(net.linked(i, m));
    } else {
        lemma_no_pull(net, labels, i, label);
    }
}

/// Where all weights are positive, the adopted label pulls, and of the labels
/// that pull as hard it is the smallest.
proof fn lemma_adopted_pulls_hardest(net: Network, labels: Seq<int>, i: int, label: int)
    requires
        net.well_formed(),
        has_positive_weights(net),
        net.has_neighbor(i),
    ensures
        ({
            let best = net.adopted(labels, i);
            &&& net.pull(labels, i, label) <= net.pull(labels, i, best)
            &&& net.pull(labels, i, label) == net.pull(labels, i, best) ==> best <= label
            &&& net.pull(labels, i, best) > 0
        }),
{
    let best = net.adopted(labels, i);
    law_heaviest_exists(net, labels, i);
    let j = choose|j: int| #[trigger] net.linked(i, j) && 0 <= j < net.size && labels[j] == best;
    let term = net.pull_term(labels, i, best);
    assert forall|m: int| 0 <= m < net.size implies #[trigger] term(m) >= 0 by {
        if net.linked(i, m) {
        }
    }
    lemma_sum_at_least_term(term, net.size as int, j);
    assert(net.weight(i, j) > 0);
    if exists|m: int| #[trigger] net.linked(i, m) && labels[m] == label {
        let m = choose|m: int| #[trigger] net.linked(i, m) && labels[m] == label;
        assert(net.linked(i, m));
    } else {
        lemma_no_pull(net, labels, i, label);
    }
}

/// Moving a node from one label to another changes the inside weight by twice
/// the difference of the two pulls.
proof fn lemma_inside_change(net: Network, labels: Seq<int>, x: int, label: int)
    requires
        net.well_formed(),
        labels.len() == net.size,
        0 <= x < net.size,
    ensures
        inside_weight(net, labels.update(x, label)) == inside_weight(net, labels) + 2 * (net.pull(
            labels,
            x,
            label,
        ) - net.pull(labels, x, labels[x])),
{
    let n = net.size as int;
    let after = labels.update(x, label);
    let old_label = labels[x];
    let f = kept_weight(net, labels);
    let g = kept_weight(net, after);
    let gain = net.pull_term(labels, x, label);
    let loss = |i: int| -net.pull_term(labels, x, old_label)(i);
    let d = |i: int| gain(i) + loss(i);
    let h = |i: int| f(i) + d(i);
    assert(net.weight(x, x) == 0) by {
        assert(!net.linked(x, x));
    }
    lemma_sum_add(gain, loss, d, n);
    crate::sums::lemma_sum_scale(net.pull_term(labels, x, old_label), loss, -1, n);
    lemma_sum_add(f, d, h, n);
    assert forall|i: int| 0 <= i < n && i != x implies #[trigger] h(i) == g(i) by {
        let t1 = net.pull_term(labels, i, labels[i]);
        let t2 = net.pull_term(after, i, labels[i]);
        assert forall|j: int| 0 <= j < n && j != x implies #[trigger] t1(j) == t2(j) by {
            assert(after[j] == labels[j]);
        }
        lemma_sum_change(t1, t2, n, x);
        assert(net.weight(i, x) == net.weight(x, i));
    }
    assert(g(x) == net.pull(labels, x, label)) by {
        let t1 = net.pull_term(labels, x, label);
        let t2 = net.pull_term(after, x, label);
        assert forall|j: int| 0 <= j < n implies #[trigger] t1(j) == t2(j) by {
            if j != x {
                assert(after[j] == labels[j]);
            }
        }
        lemma_sum_same(t1, t2, n);
    }
    lemma_sum_change(h, g, n, x);
    assert(d(x) == 0);
}

/// What the labels pull with is a multiple of the unit.
proof fn lemma_pull_multiple(net: Network, unit: int, labels: Seq<int>, i: int, label: int)
    requires
        has_unit(net, unit),
    ensures
        net.pull(labels, i, label) % unit == 0,
{
    let term = net.pull_term(labels, i, label);
    lemma_zero_is_multiple(unit);
    assert forall|j: int| 0 <= j < net.size implies #[trigger] term(j) % unit == 0 by {
        if net.linked(i, j) {
        }
    }
    lemma_sum_multiple(term, unit, net.size as int);
}

proof fn lemma_visit_progress(net: Network, unit: int, labels: Seq<int>, x: int)
    requires
        net.well_formed(),
        has_positive_weights(net),
        has_unit(net, unit),
        labels_within_components(net, labels),
        0 <= x < net.size,
    ensures
        ({
            let after = labels.update(x, net.adopted(labels, x));
            &&& progress(net, unit, after) >= progress(net, unit, labels)
            &&& net.adopted(labels, x) != labels[x] ==> progress(net, unit, after) >= progress(
                net,
                unit,
                labels,
            ) + 2 * unit
        }),
{
    let n = net.size as int;
    let label = net.adopted(labels, x);
    let after = labels.update(x, label);
    if label == labels[x] {
        assert(after =~= labels);
    } else {
        assert(net.has_neighbor(x));
        lemma_adopted_pulls_hardest(net, labels, x, labels[x]);
        lemma_inside_change(net, labels, x, label);
        lemma_sum_change(label_at(labels), label_at(after), n, x);
        assert(0 <= labels[x] < n);
        assert(0 <= label < n) by {
            law_heaviest_exists(net, labels, x);
            let j = choose|j: int| #[trigger]
                net.linked(x, j) && 0 <= j < net.size && labels[j] == label;
            assert(0 <= labels[j] < net.size);
        }
        let p = net.pull(labels, x, label);
        let q = net.pull(labels, x, labels[x]);
        let before_inside = inside_weight(net, labels);
        let after_inside = inside_weight(net, after);
        let before_total = label_total(labels);
        let after_total = label_total(after);
        assert(after_total == before_total + label - labels[x]);
        if p > q {
            lemma_pull_multiple(net, unit, labels, x, label);
            lemma_pull_multiple(net, unit, labels, x, labels[x]);
            lemma_multiples_apart(p, q, unit);
            assert(after_inside * n - 2 * unit * after_total >= before_inside * n - 2 * unit
                * before_total + 2 * unit) by (nonlinear_arith)
                requires
                    after_inside >= before_inside + 2 * unit,
                    after_total <= before_total + n - 1,
                    unit > 0,
                    n > 0,
            ;
        } else {
            assert(after_inside == before_inside);
            assert(-2 * unit * after_total >= -2 * unit * before_total + 2 * unit)
                by (nonlinear_arith)
                requires
                    after_total <= before_total - 1,
                    unit > 0,
            ;
            assert(-2 * unit * after_total == -(2 * unit * after_total)) by (nonlinear_arith);
            assert(-2 * unit * before_total == -(2 * unit * before_total)) by (nonlinear_arith);
        }
    }
}

/// Two different multiples of a unit are at least a unit apart.
proof fn lemma_multiples_apart(p: int, q: int, unit: int)
    requires
        p % unit == 0,
        q % unit == 0,
        p > q,
        unit > 0,
    ensures
        p - q >= unit,
{
    vstd::arithmetic::div_mod::lemma_fundamental_div_mod(p, unit);
    vstd::arithmetic::div_mod::lemma_fundamental_div_mod(q, unit);
    let a = p / unit;
    let b = q / unit;
    assert(unit * a - unit * b >= unit) by (nonlinear_arith)
        requires
            unit * a > unit * b,
            unit > 0,
    ;
}

proof fn lemma_visits_progress(
    net: Network,
    unit: int,
    labels: Seq<int>,
    order: Seq<int>,
    visits: nat,
)
    requires
        net.well_formed(),
        has_positive_weights(net),
        has_unit(net, unit),
        labels_within_components(net, labels),
        is_listing(order, net.size as int),
        visits <= order.len(),
    ensures
        progress(net, unit, net.visited(labels, order, visits)) >= progress(net, unit, labels),
        net.visited(labels, order, visits) != labels ==> progress(
            net,
            unit,
            net.visited(labels, order, visits),
        ) >= progress(net, unit, labels) + 2 * unit,
    decreases visits,
{
    if visits > 0 {
        let earlier = (visits - 1) as nat;
        lemma_visits_progress(net, unit, labels, order, earlier);
        lemma_visits_within_components(net, labels, order, earlier);
        let before = net.visited(labels, order, earlier);
        let node = order[visits - 1];
        lemma_visit_progress(net, unit, before, node);
        if net.adopted(before, node) == before[node] {
            assert(before.update(node, before[node]) =~= before);
        }
    }
}

proof fn lemma_progress_bounds(net: Network, unit: int, labels: Seq<int>)
    requires
        net.well_formed(),
        has_positive_weights(net),
        unit > 0,
        labels_within_components(net, labels),
    ensures
        progress(net, unit, labels) <= net.bulk() * net.size,
{
    let n = net.size as int;
    assert forall|i: int| 0 <= i < n implies #[trigger] kept_weight(net, labels)(i)
        <= net.row_magnitude()(i) by {
        let t = net.pull_term(labels, i, labels[i]);
        let m = net.magnitude_term(i);
        assert forall|j: int| 0 <= j < n implies #[trigger] t(j) <= m(j) by {
        }
        lemma_sum_at_most(t, m, n);
    }
    lemma_sum_at_most(kept_weight(net, labels), net.row_magnitude(), n);
    assert forall|i: int| 0 <= i < n implies #[trigger] kept_weight(net, labels)(i) >= 0 by {
        lemma_pull_nonnegative(net, labels, i, labels[i]);
    }
    lemma_sum_nonnegative(kept_weight(net, labels), n);
    assert forall|i: int| 0 <= i < n implies #[trigger] label_at(labels)(i) >= 0 by {
        assert(0 <= labels[i]);
    }
    lemma_sum_nonnegative(label_at(labels), n);
    let inside = inside_weight(net, labels);
    let total = label_total(labels);
    assert(0 <= inside * n <= net.bulk() * n) by (nonlinear_arith)
        requires
            0 <= inside <= net.bulk(),
            n >= 0,
    ;
    assert(0 <= 2 * unit * total) by (nonlinear_arith)
        requires
            0 <= total,
            unit > 0,
    ;
}

/// Where every node has a label of its own, the labels add up to half the
/// number of ordered pairs.
proof fn lemma_own_label_total(n: int, size: nat)
    requires
        0 <= n <= size,
    ensures
        2 * sum(label_at(own_labels(size)), n) == n * (n - 1),
    decreases n,
{
    if n > 0 {
        lemma_own_label_total(n - 1, size);
        assert(label_at(own_labels(size))(n - 1) == n - 1);
        assert(n * (n - 1) == (n - 1) * (n - 2) + 2 * (n - 1)) by (nonlinear_arith);
    }
}

proof fn lemma_settles(
    net: Network,
    unit: int,
    ids: Seq<Seq<char>>,
    labels: Seq<int>,
    limit: nat,
)
    requires
        net.well_formed(),
        has_positive_weights(net),
        has_unit(net, unit),
        ids.len() == net.size,
        labels_within_components(net, labels),
        2 * unit * (limit + 1) > net.bulk() * net.size - progress(net, unit, labels),
    ensures
        net.settled(net.propagated(ids, labels, limit)),
    decreases limit,
{
    let order = sweep_order(places(ids));
    law_sweep_visits_each_once(places(ids));
    let next = net.swept(labels, order);
    if next == labels {
        law_idle_sweep_means_settled(net, labels, order);
    } else {
        lemma_visits_within_components(net, labels, order, order.len());
        lemma_visits_progress(net, unit, labels, order, order.len());
        lemma_progress_bounds(net, unit, next);
        assert(limit > 0) by (nonlinear_arith)
            requires
                2 * unit * (limit + 1) > 2 * unit,
                unit > 0,
        ;
        assert(2 * unit * limit == 2 * unit * (limit + 1) - 2 * unit) by (nonlinear_arith);
        lemma_settles(net, unit, ids, next, (limit - 1) as nat);
    }
}

/// With positive weights, propagation settles: given enough sweeps, the
/// communities are such that no visit would change a label.
pub proof fn law_propagation_settles(
    net: Network,
    unit: int,
    ids: Seq<Seq<char>>,
    limit: nat,
)
    requires
        net.well_formed(),
        has_positive_weights(net),
        has_unit(net, unit),
        ids.len() == net.size,
        limit >= enough_sweeps(net, unit),
    ensures
        net.settled(net.communities(ids, limit)),
{
    let own = own_labels(net.size);
    law_labels_stay_in_component(net, ids, 0);
    assert(net.communities(ids, 0) == own);
    assert forall|i: int| 0 <= i < net.size implies #[trigger] kept_weight(net, own)(i) >= 0 by {
        lemma_pull_nonnegative(net, own, i, own[i]);
    }
    lemma_sum_nonnegative(kept_weight(net, own), net.size as int);
    let n = net.size as int;
    let inside = inside_weight(net, own);
    let total = label_total(own);
    let most = net.bulk() * net.size;
    let pairs = n * (n - 1) / 2;
    lemma_own_label_total(n, net.size);
    assert(total == pairs);
    vstd::arithmetic::div_mod::lemma_fundamental_div_mod(most, 2 * unit);
    let q = most / (2 * unit);
    assert(2 * unit * (limit + 1) > most + 2 * unit * total) by (nonlinear_arith)
        requires
            limit >= q + total,
            most == (2 * unit) * q + most % (2 * unit),
            most % (2 * unit) < 2 * unit,
            unit > 0,
    ;
    assert(inside * n >= 0) by (nonlinear_arith)
        requires
            inside >= 0,
            n >= 0,
    ;
    lemma_settles(net, unit, ids, own, limit);
}

/// One sweep more is one more sweep of the communities found so far.
pub proof fn law_one_more_sweep(net: Network, ids: Seq<Seq<char>>, labels: Seq<int>, limit: nat)
    ensures
        net.propagated(ids, labels, limit + 1) == net.swept(
            net.propagated(ids, labels, limit),
            sweep_order(places(ids)),
        ),
    decreases limit,
{
    let next = net.swept(labels, sweep_order(places(ids)));
    if limit > 0 && next != labels {
        law_one_more_sweep(net, ids, next, (limit - 1) as nat);
    } else if limit == 0 {
        assert(net.propagated(ids, next, 0) == next);
    }
}

/// Communities that one sweep more would leave as they are have settled.
pub proof fn law_unchanged_communities_have_settled(
    net: Network,
    ids: Seq<Seq<char>>,
    limit: nat,
)
    requires
        net.well_formed(),
        ids.len() == net.size,
        net.communities(ids, limit + 1) == net.communities(ids, limit),
    ensures
        net.settled(net.communities(ids, limit)),
{
    law_one_more_sweep(net, ids, own_labels(net.size), limit);
    law_labels_stay_in_component(net, ids, limit);
    law_sweep_visits_each_once(places(ids));
    law_idle_sweep_means_settled(net, net.communities(ids, limit), sweep_order(places(ids)));
}

} // verus!
