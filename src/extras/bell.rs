//! Bell numbers by the binomial recurrence.
use vstd::prelude::*;

use crate::extras::combinatorics::{binomial, falling, n_choose_k, short_side};

verus! {

/// The Bell number `B(n)`: `B(0) == 1` and `B(n) == sum_{k < n} C(n - 1, k) * B(k)`.
pub open spec fn bell_number(n: nat) -> nat
    decreases n, 1nat,
{
    if n == 0 {
        1
    } else {
        bell_sum((n - 1) as nat, n)
    }
}

/// `sum_{k < j} C(m, k) * B(k)`.
pub open spec fn bell_sum(m: nat, j: nat) -> nat
    decreases j, 0nat,
{
    if j == 0 {
        0
    } else {
        bell_sum(m, (j - 1) as nat) + binomial(m, (j - 1) as nat) * bell_number((j - 1) as nat)
    }
}

/// Every number that the recurrence for `B(n)` builds fits in a `u32`: the
/// Bell numbers up to `B(n)`, and the falling factorials behind the binomial
/// coefficients of the rows below `n`.
pub open spec fn bell_fits(n: nat) -> bool {
    &&& forall|m: nat| m <= n ==> #[trigger] bell_number(m) <= u32::MAX
    &&& forall|m: nat, k: nat|
        m < n && k <= m ==> #[trigger] falling(m, short_side(m, k)) <= u32::MAX
}

proof fn lemma_bell_sum_monotone(m: nat, i: nat, j: nat)
    requires
        i <= j,
    ensures
        bell_sum(m, i) <= bell_sum(m, j),
    decreases j,
{
    if i < j {
        lemma_bell_sum_monotone(m, i, (j - 1) as nat);
    }
}

/// The first Bell number is one.
pub proof fn lemma_bell_zero()
    ensures
        bell_number(0) == 1,
{
}

/// The `n`th Bell number, computed by the recurrence without memoization.
pub fn bell(n: u32) -> (r: u32)
    requires
        bell_fits(n as nat),
    ensures
        r == bell_number(n as nat),
    decreases n,
{
    if n == 0 {
        return 1;
    }
    let mut acc: u32 = 0;
    let mut k: u32 = 0;
    while k < n
        invariant
            0 < n,
            k <= n,
            bell_fits(n as nat),
            acc == bell_sum((n - 1) as nat, k as nat),
        decreases n - k,
    {
        assert(bell_fits(k as nat));
        let b = bell(k);
        assert(falling((n - 1) as nat, short_side((n - 1) as nat, k as nat)) <= u32::MAX);
        let c = n_choose_k(n - 1, k);
        proof {
            lemma_bell_sum_monotone((n - 1) as nat, (k + 1) as nat, n as nat);
            assert(bell_number(n as nat) <= u32::MAX);
            assert(b * c == c * b) by (nonlinear_arith);
        }
        acc = acc + b * c;
        k = k + 1;
    }
    acc
}

} // verus!
