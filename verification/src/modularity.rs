//! Modularity of a partition, in exact integers.

use vstd::prelude::*;
use crate::network::Network;
use crate::sums::sum;

verus! {

impl Network {
    pub open spec fn weight_from(self, i: int) -> spec_fn(int) -> int {
        |j: int| self.weight(i, j)
    }

    /// The total weight of the links of a node.
    pub open spec fn degree(self, i: int) -> int {
        sum(self.weight_from(i), self.size as int)
    }

    pub open spec fn degrees(self) -> spec_fn(int) -> int {
        |i: int| self.degree(i)
    }

    /// The sum of all degrees.
    pub open spec fn two_m(self) -> int {
        sum(self.degrees(), self.size as int)
    }

    pub open spec fn inside_term(self, labels: Seq<int>, c: int) -> spec_fn(int) -> int {
        |i: int|
            if labels[i] == c {
                self.pull(labels, i, c)
            } else {
                0
            }
    }

    /// The weight between members of a community, each link counted from both ends.
    pub open spec fn inside_of(self, labels: Seq<int>, c: int) -> int {
        sum(self.inside_term(labels, c), self.size as int)
    }

    pub open spec fn total_term(self, labels: Seq<int>, c: int) -> spec_fn(int) -> int {
        |i: int|
            if labels[i] == c {
                self.degree(i)
            } else {
                0
            }
    }

    /// The degrees of the members of a community, added up.
    pub open spec fn total_of(self, labels: Seq<int>, c: int) -> int {
        sum(self.total_term(labels, c), self.size as int)
    }

    pub open spec fn share_term(self, labels: Seq<int>) -> spec_fn(int) -> int {
        |c: int|
            self.inside_of(labels, c) * self.two_m() - self.total_of(labels, c) * self.total_of(
                labels,
                c,
            )
    }

    /// For labels below `size`, the modularity times the square of `two_m`:
    /// the sum over the communities `c` of `inside_of(c) * two_m - total_of(c)^2`.
    pub open spec fn scaled_modularity(self, labels: Seq<int>) -> int {
        sum(self.share_term(labels), self.size as int)
    }
}

} // verus!
