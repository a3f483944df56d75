//! Finite sums of integers.

use vstd::prelude::*;

verus! {

/// `f(0) + f(1) + .. + f(n - 1)`.
pub open spec fn sum(f: spec_fn(int) -> int, n: int) -> int
    decreases n,
{
    if n <= 0 {
        0
    } else {
        sum(f, n - 1) + f(n - 1)
    }
}

/// The distance of an integer from zero.
pub open spec fn magnitude(x: int) -> int {
    if x < 0 {
        -x
    } else {
        x
    }
}

/// `f` where `keep` holds, zero elsewhere.
pub open spec fn restricted(f: spec_fn(int) -> int, keep: spec_fn(int) -> bool) -> spec_fn(
    int,
) -> int {
    |j: int|
        if keep(j) {
            f(j)
        } else {
            0
        }
}

pub proof fn lemma_sum_same(f: spec_fn(int) -> int, g: spec_fn(int) -> int, n: int)
    requires
        forall|j: int| 0 <= j < n ==> #[trigger] f(j) == g(j),
    ensures
        sum(f, n) == sum(g, n),
    decreases n,
{
    if n > 0 {
        lemma_sum_same(f, g, n - 1);
        assert(f(n - 1) == g(n - 1));
    }
}

pub proof fn lemma_sum_at_most(f: spec_fn(int) -> int, g: spec_fn(int) -> int, n: int)
    requires
        forall|j: int| 0 <= j < n ==> #[trigger] f(j) <= g(j),
    ensures
        sum(f, n) <= sum(g, n),
    decreases n,
{
    if n > 0 {
        lemma_sum_at_most(f, g, n - 1);
        assert(f(n - 1) <= g(n - 1));
    }
}

pub proof fn lemma_sum_zero(f: spec_fn(int) -> int, n: int)
    requires
        forall|j: int| 0 <= j < n ==> #[trigger] f(j) == 0,
    ensures
        sum(f, n) == 0,
    decreases n,
{
    if n > 0 {
        lemma_sum_zero(f, n - 1);
        assert(f(n - 1) == 0);
    }
}

pub proof fn lemma_zero_is_multiple(unit: int)
    requires
        unit > 0,
    ensures
        0int % unit == 0,
{
    vstd::arithmetic::div_mod::lemma_small_mod(0, unit as nat);
}

pub proof fn lemma_sum_multiple(f: spec_fn(int) -> int, unit: int, n: int)
    requires
        unit > 0,
        forall|j: int| 0 <= j < n ==> #[trigger] f(j) % unit == 0,
    ensures
        sum(f, n) % unit == 0,
    decreases n,
{
    lemma_zero_is_multiple(unit);
    if n > 0 {
        lemma_sum_multiple(f, unit, n - 1);
        assert(f(n - 1) % unit == 0);
        vstd::arithmetic::div_mod::lemma_add_mod_noop(sum(f, n - 1), f(n - 1), unit);
    }
}

pub proof fn lemma_sum_nonnegative(f: spec_fn(int) -> int, n: int)
    requires
        forall|j: int| 0 <= j < n ==> #[trigger] f(j) >= 0,
    ensures
        sum(f, n) >= 0,
    decreases n,
{
    if n > 0 {
        lemma_sum_nonnegative(f, n - 1);
        assert(f(n - 1) >= 0);
    }
}

/// The magnitude of a sum is at most the sum of bounds on its terms.
pub proof fn lemma_sum_magnitude(f: spec_fn(int) -> int, g: spec_fn(int) -> int, n: int)
    requires
        forall|j: int| 0 <= j < n ==> magnitude(#[trigger] f(j)) <= g(j),
    ensures
        magnitude(sum(f, n)) <= sum(g, n),
    decreases n,
{
    if n > 0 {
        lemma_sum_magnitude(f, g, n - 1);
        assert(magnitude(f(n - 1)) <= g(n - 1));
    }
}

/// A sum of nonnegative terms is at least each of its terms.
pub proof fn lemma_sum_at_least_term(f: spec_fn(int) -> int, n: int, x: int)
    requires
        forall|j: int| 0 <= j < n ==> #[trigger] f(j) >= 0,
        0 <= x < n,
    ensures
        sum(f, n) >= f(x),
    decreases n,
{
    assert(f(n - 1) >= 0);
    if x < n - 1 {
        lemma_sum_at_least_term(f, n - 1, x);
    } else {
        lemma_sum_nonnegative(f, n - 1);
    }
}

pub proof fn lemma_sum_monotone(f: spec_fn(int) -> int, m: int, n: int)
    requires
        forall|j: int| 0 <= j < n ==> #[trigger] f(j) >= 0,
        m <= n,
    ensures
        sum(f, m) <= sum(f, n),
    decreases n - m,
{
    if m < n {
        lemma_sum_monotone(f, m, n - 1);
        if n > 0 {
            assert(f(n - 1) >= 0);
        }
    }
}

pub proof fn lemma_sum_add(
    f: spec_fn(int) -> int,
    g: spec_fn(int) -> int,
    h: spec_fn(int) -> int,
    n: int,
)
    requires
        forall|j: int| 0 <= j < n ==> #[trigger] h(j) == f(j) + g(j),
    ensures
        sum(h, n) == sum(f, n) + sum(g, n),
    decreases n,
{
    if n > 0 {
        lemma_sum_add(f, g, h, n - 1);
        assert(h(n - 1) == f(n - 1) + g(n - 1));
    }
}

pub proof fn lemma_sum_scale(f: spec_fn(int) -> int, g: spec_fn(int) -> int, c: int, n: int)
    requires
        forall|j: int| 0 <= j < n ==> #[trigger] g(j) == c * f(j),
    ensures
        sum(g, n) == c * sum(f, n),
    decreases n,
{
    if n > 0 {
        lemma_sum_scale(f, g, c, n - 1);
        assert(g(n - 1) == c * f(n - 1));
        assert(c * sum(f, n) == c * sum(f, n - 1) + c * f(n - 1)) by (nonlinear_arith)
            requires
                sum(f, n) == sum(f, n - 1) + f(n - 1),
        ;
    } else {
        assert(c * sum(f, n) == 0) by (nonlinear_arith)
            requires
                sum(f, n) == 0,
        ;
    }
}

/// Two sums that differ in one term differ by the difference of that term.
pub proof fn lemma_sum_change(f: spec_fn(int) -> int, g: spec_fn(int) -> int, n: int, x: int)
    requires
        0 <= x < n,
        forall|j: int| 0 <= j < n && j != x ==> #[trigger] f(j) == g(j),
    ensures
        sum(g, n) == sum(f, n) + (g(x) - f(x)),
    decreases n,
{
    if x == n - 1 {
        lemma_sum_same(f, g, n - 1);
    } else {
        lemma_sum_change(f, g, n - 1, x);
        assert(f(n - 1) == g(n - 1));
    }
}

/// A sum whose terms all vanish but one is that term.
pub proof fn lemma_sum_single(f: spec_fn(int) -> int, n: int, x: int)
    requires
        0 <= x < n,
        forall|j: int| 0 <= j < n && j != x ==> #[trigger] f(j) == 0,
    ensures
        sum(f, n) == f(x),
{
    let zero = |j: int| 0int;
    lemma_sum_zero(zero, n);
    lemma_sum_change(zero, f, n, x);
}

pub open spec fn row_sums(f: spec_fn(int, int) -> int, columns: int) -> spec_fn(int) -> int {
    |i: int| sum(|j: int| f(i, j), columns)
}

pub open spec fn column_sums(f: spec_fn(int, int) -> int, rows: int) -> spec_fn(int) -> int {
    |j: int| sum(|i: int| f(i, j), rows)
}

/// A table adds up to the same total by rows and by columns.
pub proof fn lemma_sum_exchange(f: spec_fn(int, int) -> int, rows: int, columns: int)
    ensures
        sum(row_sums(f, columns), rows) == sum(column_sums(f, rows), columns),
    decreases rows,
{
    if rows <= 0 {
        lemma_sum_zero(column_sums(f, rows), columns);
    } else {
        lemma_sum_exchange(f, rows - 1, columns);
        let last = |j: int| f(rows - 1, j);
        assert forall|j: int| 0 <= j < columns implies #[trigger] column_sums(f, rows)(j)
            == column_sums(f, rows - 1)(j) + last(j) by {
            let a = |i: int| f(i, j);
            assert(sum(a, rows) == sum(a, rows - 1) + a(rows - 1));
        }
        lemma_sum_add(column_sums(f, rows - 1), last, column_sums(f, rows), columns);
        assert(row_sums(f, columns)(rows - 1) == sum(last, columns));
    }
}

/// Adding up `g` over listed places is adding up `g` over all places, where
/// the places not listed count nothing.
pub proof fn lemma_sum_reindex(
    g: spec_fn(int) -> int,
    places: Seq<int>,
    listed: spec_fn(int) -> int,
    spread: spec_fn(int) -> int,
    n: int,
)
    requires
        places.no_duplicates(),
        forall|e: int| 0 <= e < places.len() ==> 0 <= #[trigger] places[e] < n,
        forall|e: int| 0 <= e < places.len() ==> #[trigger] listed(e) == g(places[e]),
        forall|j: int|
            0 <= j < n ==> #[trigger] spread(j) == (if places.contains(j) {
                g(j)
            } else {
                0
            }),
    ensures
        sum(listed, places.len() as int) == sum(spread, n),
    decreases places.len(),
{
    if places.len() == 0 {
        assert forall|j: int| 0 <= j < n implies #[trigger] spread(j) == 0 by {
            assert(!places.contains(j));
        }
        lemma_sum_zero(spread, n);
    } else {
        let fewer = places.drop_last();
        let x = places.last();
        let before = restricted(g, |j: int| fewer.contains(j));
        lemma_sum_reindex(g, fewer, listed, before, n);
        assert(places.contains(x)) by {
            assert(places[places.len() - 1] == x);
        }
        assert(!fewer.contains(x));
        assert forall|j: int| 0 <= j < n && j != x implies #[trigger] before(j) == spread(j) by {
            if places.contains(j) {
                let e = choose|e: int| 0 <= e < places.len() && places[e] == j;
                assert(fewer[e] == j);
            }
            if fewer.contains(j) {
                let e = choose|e: int| 0 <= e < fewer.len() && fewer[e] == j;
                assert(places[e] == j);
            }
        }
        assert(places[places.len() - 1] == x);
        lemma_sum_change(before, spread, n, x);
        assert(listed(places.len() - 1) == g(x));
        assert(spread(x) == g(x));
    }
}

} // verus!
