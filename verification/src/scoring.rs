//! Scoring a partition of the entities by its modularity.

use std::collections::BTreeMap;
use vstd::prelude::*;
use crate::graph::KnowledgeGraph;
use crate::model::GraphView;
use crate::modularity_laws::labels_in_range;
use crate::network::Network;
use crate::propagation::{
    ends, lemma_row_within_bulk, lemma_tally_bounded, lemma_tally_is_pull, link_magnitude,
    row_lists, rows_list, tally_term, Link, BULK_LIMIT,
};
use crate::string_map::StringMap;
use crate::sums::{
    lemma_sum_magnitude, lemma_sum_monotone, lemma_sum_reindex, lemma_sum_same, lemma_sum_zero,
    magnitude, sum,
};
use crate::sweep::as_ints;

verus! {

/// The part of one community in the modularity.
#[derive(Clone, Copy, Debug, PartialEq, Eq, Structural)]
pub struct Share {
    /// The weight between members, each link counted from both ends.
    pub inside: i128,
    /// The degrees of the members, added up.
    pub total: i128,
}

/// The modularity of a partition, in exact integers. Its value is the sum over
/// the communities of `inside / two_m - (total / two_m)^2`, and zero where
/// `two_m` is zero.
#[derive(Clone, Debug)]
pub struct Modularity {
    /// The sum of all degrees.
    pub two_m: i128,
    /// The parts of the communities; none where `two_m` is zero.
    pub shares: BTreeMap<usize, Share>,
}

impl Modularity {
    /// This is the modularity of the network under the labels.
    pub open spec fn scores(&self, net: Network, labels: Seq<int>) -> bool {
        &&& self.two_m == net.two_m()
        &&& net.two_m() == 0 ==> self.shares@ == Map::<usize, Share>::empty()
        &&& net.two_m() != 0 ==> forall|c: usize| #[trigger]
            self.shares@.contains_key(c) <==> labels.contains(c as int)
        &&& net.two_m() != 0 ==> forall|c: usize| #[trigger]
            self.shares@.contains_key(c) ==> self.shares@[c].inside == net.inside_of(
                labels,
                c as int,
            ) && self.shares@[c].total == net.total_of(labels, c as int)
    }
}

/// What a community contributes, times the square of `two_m`.
pub open spec fn scaled_share(m: Modularity) -> spec_fn(int) -> int {
    |c: int|
        if m.shares@.contains_key(c as usize) {
            m.shares@[c as usize].inside * m.two_m - m.shares@[c as usize].total
                * m.shares@[c as usize].total
        } else {
            0
        }
}

/// The shares of the communities make up the modularity: a community without
/// members contributes nothing.
pub proof fn law_shares_make_up_modularity(m: Modularity, net: Network, labels: Seq<int>)
    requires
        m.scores(net, labels),
        labels_in_range(net, labels),
        net.two_m() != 0,
        net.size <= usize::MAX,
    ensures
        sum(scaled_share(m), net.size as int) == net.scaled_modularity(labels),
{
    let n = net.size as int;
    assert forall|c: int| 0 <= c < n implies #[trigger] scaled_share(m)(c) == net.share_term(
        labels,
    )(c) by {
        let key = c as usize;
        assert(m.shares@.contains_key(key) <==> labels.contains(c));
        if !labels.contains(c) {
            assert(labels.take(n) =~= labels);
            lemma_no_share(net, labels, c, n);
            assert(0 * net.two_m() - 0 * 0 == 0) by (nonlinear_arith);
        }
    }
    lemma_sum_same(scaled_share(m), net.share_term(labels), n);
}

impl GraphView {
    /// The labels of the entities, in ascending order of the identifiers.
    pub open spec fn labelling(self, labels: Map<Seq<char>, usize>) -> Seq<int> {
        self.ids().map_values(|id: Seq<char>| labels[id] as int)
    }

    /// The communities that the entities are stored with, in that order.
    pub open spec fn stored_labels(self) -> Seq<int> {
        self.ids().map_values(|id: Seq<char>| self.entities[id].community_id)
    }
}

spec fn link_weight(row: Seq<Link>) -> spec_fn(int) -> int {
    |e: int| row[e].weight as int
}

proof fn lemma_row_is_degree(net: Network, row: Seq<Link>, i: int)
    requires
        net.well_formed(),
        row_lists(row, net, i),
    ensures
        sum(link_weight(row), row.len() as int) == net.degree(i),
{
    let g = net.weight_from(i);
    let places = ends(row);
    assert forall|e: int| 0 <= e < places.len() implies 0 <= #[trigger] places[e] < net.size by {
        assert(net.linked(i, row[e].node as int));
    }
    assert forall|e: int| 0 <= e < places.len() implies #[trigger] link_weight(row)(e) == g(
        places[e],
    ) by {
        assert(net.linked(i, row[e].node as int));
    }
    assert forall|j: int| 0 <= j < net.size implies #[trigger] g(j) == (if places.contains(j) {
        g(j)
    } else {
        0
    }) by {
        if !places.contains(j) {
            assert(!net.linked(i, j));
        }
    }
    lemma_sum_reindex(g, places, link_weight(row), g, net.size as int);
}

/// No sum of degrees or of inner weights leaves the bulk.
proof fn lemma_scores_within_bulk(net: Network, labels: Seq<int>, c: int, k: int)
    requires
        0 <= k <= net.size,
    ensures
        magnitude(sum(net.degrees(), k)) <= net.bulk(),
        magnitude(sum(net.total_term(labels, c), k)) <= net.bulk(),
        magnitude(sum(net.inside_term(labels, c), k)) <= net.bulk(),
{
    let n = net.size as int;
    let bound = net.row_magnitude();
    assert forall|i: int| 0 <= i < n implies magnitude(net.degree(i)) <= bound(i) && magnitude(
        net.pull(labels, i, c),
    ) <= bound(i) && #[trigger] bound(i) >= 0 by {
        lemma_sum_magnitude(net.weight_from(i), net.magnitude_term(i), n);
        lemma_sum_magnitude(net.pull_term(labels, i, c), net.magnitude_term(i), n);
    }
    assert forall|i: int| 0 <= i < k implies magnitude(#[trigger] net.degrees()(i)) <= bound(i) by {
        assert(bound(i) >= 0);
    }
    assert forall|i: int| 0 <= i < k implies magnitude(#[trigger] net.total_term(labels, c)(i))
        <= bound(i) by {
        assert(bound(i) >= 0);
    }
    assert forall|i: int| 0 <= i < k implies magnitude(#[trigger] net.inside_term(labels, c)(i))
        <= bound(i) by {
        assert(bound(i) >= 0);
    }
    lemma_sum_magnitude(net.degrees(), bound, k);
    lemma_sum_magnitude(net.total_term(labels, c), bound, k);
    lemma_sum_magnitude(net.inside_term(labels, c), bound, k);
    lemma_sum_monotone(bound, k, n);
}

/// The total weight of the links of a node.
fn degree_of(Ghost(net): Ghost<Network>, Ghost(i): Ghost<int>, row: &Vec<Link>) -> (d: i128)
    requires
        net.well_formed(),
        net.bulk() <= BULK_LIMIT,
        0 <= i < net.size,
        row_lists(row@, net, i),
    ensures
        d == net.degree(i),
{
    let mut d: i128 = 0;
    let mut k: usize = 0;
    while k < row.len()
        invariant
            net.well_formed(),
            net.bulk() <= BULK_LIMIT,
            0 <= i < net.size,
            row_lists(row@, net, i),
            k <= row.len(),
            d == sum(link_weight(row@), k as int),
        decreases row.len() - k,
    {
        proof {
            lemma_sum_magnitude(link_weight(row@), link_magnitude(row@), k + 1);
            lemma_row_within_bulk(net, row@, i, k + 1);
            assert(sum(link_weight(row@), k + 1) == sum(link_weight(row@), k as int)
                + link_weight(row@)(k as int));
        }
        d = d + row[k].weight;
        k += 1;
    }
    proof {
        lemma_row_is_degree(net, row@, i);
    }
    d
}

/// The total weight of the links of a node that lead into a community.
fn pull_of(
    Ghost(net): Ghost<Network>,
    Ghost(i): Ghost<int>,
    row: &Vec<Link>,
    labels: &Vec<usize>,
    c: usize,
) -> (p: i128)
    requires
        net.well_formed(),
        net.bulk() <= BULK_LIMIT,
        0 <= i < net.size,
        row_lists(row@, net, i),
        labels.len() == net.size,
    ensures
        p == net.pull(as_ints(labels@), i, c as int),
{
    let mut p: i128 = 0;
    let mut k: usize = 0;
    while k < row.len()
        invariant
            net.well_formed(),
            net.bulk() <= BULK_LIMIT,
            0 <= i < net.size,
            row_lists(row@, net, i),
            labels.len() == net.size,
            k <= row.len(),
            p == sum(tally_term(row@, labels@, c as int), k as int),
        decreases row.len() - k,
    {
        assert(net.linked(i, row@[k as int].node as int));
        proof {
            lemma_tally_bounded(row@, labels@, c as int, k + 1);
            lemma_row_within_bulk(net, row@, i, k + 1);
            assert(sum(tally_term(row@, labels@, c as int), k + 1) == sum(
                tally_term(row@, labels@, c as int),
                k as int,
            ) + tally_term(row@, labels@, c as int)(k as int));
        }
        if labels[row[k].node] == c {
            p = p + row[k].weight;
        }
        k += 1;
    }
    proof {
        lemma_tally_is_pull(net, row@, labels@, i, c as int);
    }
    p
}

/// The sum of all degrees.
fn sum_of_degrees(Ghost(net): Ghost<Network>, rows: &Vec<Vec<Link>>) -> (two_m: i128)
    requires
        rows_list(rows@, net),
        net.bulk() <= BULK_LIMIT,
    ensures
        two_m == net.two_m(),
{
    let mut two_m: i128 = 0;
    let mut i: usize = 0;
    while i < rows.len()
        invariant
            rows_list(rows@, net),
            net.bulk() <= BULK_LIMIT,
            i <= rows.len(),
            two_m == sum(net.degrees(), i as int),
        decreases rows.len() - i,
    {
        assert(row_lists(rows@[i as int]@, net, i as int));
        let d: i128 = degree_of(Ghost(net), Ghost(i as int), &rows[i]);
        proof {
            lemma_scores_within_bulk(net, Seq::empty(), 0, i + 1);
            assert(sum(net.degrees(), i + 1) == sum(net.degrees(), i as int) + net.degrees()(
                i as int,
            ));
        }
        two_m = two_m + d;
        i += 1;
    }
    two_m
}

/// The shares hold what the first `k` nodes contribute.
spec fn shared(shares: Map<usize, Share>, net: Network, labels: Seq<int>, k: int) -> bool {
    &&& forall|c: usize| #[trigger]
        shares.contains_key(c) <==> labels.take(k).contains(c as int)
    &&& forall|c: usize| #[trigger]
        shares.contains_key(c) ==> shares[c].inside == sum(net.inside_term(labels, c as int), k)
            && shares[c].total == sum(net.total_term(labels, c as int), k)
}

proof fn lemma_no_share(net: Network, labels: Seq<int>, c: int, k: int)
    requires
        0 <= k <= labels.len(),
        !labels.take(k).contains(c),
    ensures
        sum(net.inside_term(labels, c), k) == 0,
        sum(net.total_term(labels, c), k) == 0,
{
    assert forall|i: int| 0 <= i < k implies labels[i] != c by {
        assert(labels.take(k)[i] == labels[i]);
    }
    lemma_sum_zero(net.inside_term(labels, c), k);
    lemma_sum_zero(net.total_term(labels, c), k);
}

proof fn lemma_shared_step(
    before: Map<usize, Share>,
    share: Share,
    c: usize,
    net: Network,
    labels: Seq<int>,
    k: int,
)
    requires
        0 <= k < labels.len(),
        labels[k] == c,
        shared(before, net, labels, k),
        share.inside == sum(net.inside_term(labels, c as int), k + 1),
        share.total == sum(net.total_term(labels, c as int), k + 1),
    ensures
        shared(before.insert(c, share), net, labels, k + 1),
{
    let after = before.insert(c, share);
    assert(labels.take(k + 1) =~= labels.take(k).push(c as int));
    assert forall|d: usize| #[trigger] after.contains_key(d) <==> labels.take(k + 1).contains(
        d as int,
    ) by {
        assert(before.contains_key(d) <==> labels.take(k).contains(d as int));
        if labels.take(k).contains(d as int) {
            let i = choose|i: int| 0 <= i < k && labels.take(k)[i] == d;
            assert(labels.take(k + 1)[i] == d);
        }
        assert(labels.take(k + 1)[k] == c);
    }
    assert forall|d: usize| #[trigger] after.contains_key(d) implies after[d].inside == sum(
        net.inside_term(labels, d as int),
        k + 1,
    ) && after[d].total == sum(net.total_term(labels, d as int), k + 1) by {
        if d != c {
            assert(before.contains_key(d));
            assert(net.inside_term(labels, d as int)(k) == 0);
            assert(net.total_term(labels, d as int)(k) == 0);
        }
    }
}

/// The modularity of a network under the given labels.
fn score(Ghost(net): Ghost<Network>, rows: &Vec<Vec<Link>>, labels: &Vec<usize>) -> (shares:
    BTreeMap<usize, Share>)
    requires
        rows_list(rows@, net),
        net.bulk() <= BULK_LIMIT,
        labels.len() == net.size,
    ensures
        shared(shares@, net, as_ints(labels@), net.size as int),
{
    broadcast use vstd::std_specs::btree::group_btree_axioms;

    let ghost ints = as_ints(labels@);
    let mut shares: BTreeMap<usize, Share> = BTreeMap::new();
    let mut i: usize = 0;
    while i < rows.len()
        invariant
            rows_list(rows@, net),
            net.bulk() <= BULK_LIMIT,
            labels.len() == net.size,
            ints == as_ints(labels@),
            i <= rows.len(),
            shared(shares@, net, ints, i as int),
        decreases rows.len() - i,
    {
        assert(row_lists(rows@[i as int]@, net, i as int));
        let c: usize = labels[i];
        let degree: i128 = degree_of(Ghost(net), Ghost(i as int), &rows[i]);
        let pull: i128 = pull_of(Ghost(net), Ghost(i as int), &rows[i], labels, c);
        let share: Share = match shares.get(&c) {
            Some(share) => *share,
            None => Share { inside: 0, total: 0 },
        };
        proof {
            assert(ints[i as int] == c);
            if !shares@.contains_key(c) {
                lemma_no_share(net, ints, c as int, i as int);
            }
            lemma_scores_within_bulk(net, ints, c as int, i + 1);
            assert(sum(net.inside_term(ints, c as int), i + 1) == share.inside + pull);
            assert(sum(net.total_term(ints, c as int), i + 1) == share.total + degree);
        }
        let more = Share { inside: share.inside + pull, total: share.total + degree };
        proof {
            lemma_shared_step(shares@, more, c, net, ints, i as int);
        }
        shares.insert(c, more);
        i += 1;
    }
    shares
}

impl KnowledgeGraph {
    /// The sum of all degrees in the undirected network of the entities: twice
    /// the total weight of its links.
    pub fn two_m(&self) -> (two_m: i128)
        requires
            self.well_formed(),
        ensures
            two_m == self@.network().two_m(),
    {
        let rows = self.undirected_adjacency();
        sum_of_degrees(Ghost(self@.network()), &rows)
    }

    /// The modularity of a partition. `labels` gives every entity its community;
    /// where the degrees add up to zero, no label is looked at.
    pub fn modularity_of(&self, labels: &StringMap<usize>) -> (m: Modularity)
        requires
            self.well_formed(),
            labels.well_formed(),
            self@.network().two_m() == 0 || forall|id: Seq<char>| #[trigger]
                self@.entities.contains_key(id) ==> labels@.contains_key(id),
        ensures
            m.scores(self@.network(), self@.labelling(labels@)),
    {
        let ghost net = self@.network();
        let ghost target = self@.labelling(labels@);
        proof {
            self.lemma_finite();
            self.entities.lemma_listing();
        }
        let rows = self.undirected_adjacency();
        let two_m: i128 = sum_of_degrees(Ghost(net), &rows);
        if two_m == 0 {
            return Modularity { two_m, shares: BTreeMap::new() };
        }
        let n: usize = self.entities.len();
        let mut given: Vec<usize> = Vec::new();
        let mut i: usize = 0;
        while i < n
            invariant
                self.well_formed(),
                labels.well_formed(),
                n == self.entities@.len(),
                i <= n,
                given.len() == i,
                self@.entities.dom() == self.entities@.dom(),
                self@.ids() == self.entities.key_order(),
                forall|id: Seq<char>| #[trigger]
                    self@.entities.contains_key(id) ==> labels@.contains_key(id),
                forall|k: int| 0 <= k < i ==> #[trigger] given[k] == labels@[self@.ids()[k]],
            decreases n - i,
        {
            proof {
                self.entities.lemma_listing();
                assert(self.entities@.contains_key(self.entities.key_order()[i as int]));
                assert(self@.entities.contains_key(self@.ids()[i as int]));
            }
            let label: usize = *labels.get(self.entities.key_at(i).as_str()).unwrap();
            given.push(label);
            i += 1;
        }
        assert(as_ints(given@) =~= target);
        let shares = score(Ghost(net), &rows, &given);
        assert(target.take(net.size as int) =~= target);
        Modularity { two_m, shares }
    }

    /// The modularity of the partition that the entities are stored with.
    pub fn modularity(&self) -> (m: Modularity)
        requires
            self.well_formed(),
        ensures
            m.scores(self@.network(), self@.stored_labels()),
    {
        proof {
            self.lemma_finite();
            self.entities.lemma_listing();
        }
        let n: usize = self.entities.len();
        let mut labels: StringMap<usize> = StringMap::new();
        let mut i: usize = 0;
        while i < n
            invariant
                self.well_formed(),
                n == self.entities@.len(),
                i <= n,
                labels.well_formed(),
                self@.ids() == self.entities.key_order(),
                forall|k: int|
                    0 <= k < i ==> labels@.contains_key(#[trigger] self@.ids()[k])
                        && labels@[self@.ids()[k]] == self@.entities[self@.ids()[k]].community_id,
            decreases n - i,
        {
            let id: String = self.entities.key_at(i).clone();
            let c: usize = self.entities.value_at(i).community_id;
            proof {
                self.entities.lemma_listing();
                assert(self.entities@.contains_key(self.entities.key_order()[i as int]));
            }
            labels.insert(id, c);
            i += 1;
        }
        proof {
            assert forall|id: Seq<char>| #[trigger]
                self@.entities.contains_key(id) implies labels@.contains_key(id) by {
                assert(self.entities@.contains_key(id));
                assert(self@.ids().contains(id));
                let k = self@.ids().index_of(id);
                assert(self@.ids()[k] == id);
            }
            assert(self@.labelling(labels@) =~= self@.stored_labels());
        }
        self.modularity_of(&labels)
    }
}

} // verus!
