//! Weighted undirected networks, and label propagation on them.

use vstd::prelude::*;
use crate::hash::place_of;
use crate::sums::{magnitude, sum};
use crate::sweep::sweep_order;

verus! {

/// A network on the nodes `0 .. size - 1`. A pair of linked nodes carries the
/// total weight between them.
#[verifier::ext_equal]
pub struct Network {
    pub size: nat,
    pub links: Map<(int, int), int>,
}

impl Network {
    pub open spec fn linked(self, i: int, j: int) -> bool {
        self.links.contains_key((i, j))
    }

    /// The weight between two nodes; zero where they are not linked.
    pub open spec fn weight(self, i: int, j: int) -> int {
        if self.linked(i, j) {
            self.links[(i, j)]
        } else {
            0
        }
    }

    /// Links join two different nodes of the network, and have no direction.
    pub open spec fn well_formed(self) -> bool {
        &&& forall|i: int, j: int| #[trigger]
            self.linked(i, j) ==> 0 <= i < self.size && 0 <= j < self.size && i != j
        &&& forall|i: int, j: int| #[trigger] self.linked(i, j) ==> self.linked(j, i)
        &&& forall|i: int, j: int| #[trigger] self.weight(i, j) == self.weight(j, i)
    }

    pub open spec fn has_neighbor(self, i: int) -> bool {
        exists|j: int| self.linked(i, j)
    }

    pub open spec fn pull_term(self, labels: Seq<int>, i: int, label: int) -> spec_fn(int) -> int {
        |j: int|
            if labels[j] == label {
                self.weight(i, j)
            } else {
                0
            }
    }

    /// The total weight between a node and the nodes that carry a label.
    pub open spec fn pull(self, labels: Seq<int>, i: int, label: int) -> int {
        sum(self.pull_term(labels, i, label), self.size as int)
    }

    /// The label that a node with neighbors adopts: one that a neighbor carries,
    /// of the largest pull, and among those of the largest pull the smallest.
    pub open spec fn is_heaviest(self, labels: Seq<int>, i: int, label: int) -> bool {
        &&& exists|j: int| #[trigger] self.linked(i, j) && labels[j] == label
        &&& forall|j: int| #[trigger]
            self.linked(i, j) ==> {
                ||| self.pull(labels, i, labels[j]) < self.pull(labels, i, label)
                ||| self.pull(labels, i, labels[j]) == self.pull(labels, i, label) && label
                    <= labels[j]
            }
    }

    /// The label of a node after it was visited. A node without neighbors
    /// keeps its own.
    pub open spec fn adopted(self, labels: Seq<int>, i: int) -> int {
        if self.has_neighbor(i) {
            choose|label: int| self.is_heaviest(labels, i, label)
        } else {
            labels[i]
        }
    }

    /// The labels after the first `visits` nodes of `order` were visited, one
    /// after the other.
    pub open spec fn visited(self, labels: Seq<int>, order: Seq<int>, visits: nat) -> Seq<int>
        decreases visits,
    {
        if visits == 0 {
            labels
        } else {
            let before = self.visited(labels, order, (visits - 1) as nat);
            let node = order[visits - 1];
            before.update(node, self.adopted(before, node))
        }
    }

    /// The labels after one full sweep.
    pub open spec fn swept(self, labels: Seq<int>, order: Seq<int>) -> Seq<int> {
        self.visited(labels, order, order.len())
    }

    /// The labels after sweeping on until a sweep changes nothing, or `limit`
    /// sweeps have been made. All sweeps visit the nodes in the same order.
    pub open spec fn propagated(
        self,
        ids: Seq<Seq<char>>,
        labels: Seq<int>,
        limit: nat,
    ) -> Seq<int>
        decreases limit,
    {
        if limit == 0 {
            labels
        } else {
            let next = self.swept(labels, sweep_order(places(ids)));
            if next == labels {
                labels
            } else {
                self.propagated(ids, next, (limit - 1) as nat)
            }
        }
    }

    /// The communities of the network: the labels that propagation reaches
    /// within `limit` sweeps from a start where every node has a label of its own.
    pub open spec fn communities(self, ids: Seq<Seq<char>>, limit: nat) -> Seq<int> {
        self.propagated(ids, own_labels(self.size), limit)
    }

    /// No visit would change a label.
    pub open spec fn settled(self, labels: Seq<int>) -> bool {
        forall|i: int| 0 <= i < self.size ==> #[trigger] self.adopted(labels, i) == labels[i]
    }

    pub open spec fn magnitude_term(self, i: int) -> spec_fn(int) -> int {
        |j: int| magnitude(self.weight(i, j))
    }

    pub open spec fn row_magnitude(self) -> spec_fn(int) -> int {
        |i: int| sum(self.magnitude_term(i), self.size as int)
    }

    /// The magnitudes of all weights, added up over all ordered pairs.
    pub open spec fn bulk(self) -> int {
        sum(self.row_magnitude(), self.size as int)
    }
}

/// Every node labelled by its own number.
pub open spec fn own_labels(size: nat) -> Seq<int> {
    Seq::new(size, |i: int| i)
}

/// The places of the nodes in a sweep: the hashes of their identifiers.
pub open spec fn places(ids: Seq<Seq<char>>) -> Seq<u64> {
    Seq::new(ids.len(), |i: int| place_of(ids[i]))
}

/// At most one label is the heaviest.
pub proof fn law_heaviest_unique(net: Network, labels: Seq<int>, i: int, a: int, b: int)
    requires
        net.is_heaviest(labels, i, a),
        net.is_heaviest(labels, i, b),
    ensures
        a == b,
{
    let ja = choose|j: int| #[trigger] net.linked(i, j) && labels[j] == a;
    let jb = choose|j: int| #[trigger] net.linked(i, j) && labels[j] == b;
    assert(net.linked(i, ja));
    assert(net.linked(i, jb));
}

pub proof fn lemma_adopted_is(net: Network, labels: Seq<int>, i: int, label: int)
    requires
        net.is_heaviest(labels, i, label),
    ensures
        net.adopted(labels, i) == label,
{
    let j = choose|j: int| #[trigger] net.linked(i, j) && labels[j] == label;
    assert(net.has_neighbor(i));
    law_heaviest_unique(net, labels, i, label, net.adopted(labels, i));
}

} // verus!
