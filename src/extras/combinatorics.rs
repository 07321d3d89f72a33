//! Factorials, falling factorials and binomial coefficients.
use vstd::prelude::*;

verus! {

/// `n!`, the product `1 * 2 * ... * n`.
pub open spec fn fact(n: nat) -> nat
    decreases n,
{
    if n == 0 {
        1
    } else {
        n * fact((n - 1) as nat)
    }
}

/// The falling factorial `n * (n - 1) * ... * (n - k + 1)`, a product of `k` factors.
pub open spec fn falling(n: nat, k: nat) -> nat
    decreases k,
{
    if k == 0 {
        1
    } else {
        n * falling((n - 1) as nat, (k - 1) as nat)
    }
}

/// The binomial coefficient `n! / (k! * (n - k)!)`, for `k <= n`.
pub open spec fn binomial(n: nat, k: nat) -> nat
    recommends
        k <= n,
{
    fact(n) / (fact(k) * fact((n - k) as nat))
}

/// The smaller of `k` and `n - k`: the number of factors that `choose` multiplies.
pub open spec fn short_side(n: nat, k: nat) -> nat {
    if 2 * k <= n {
        k
    } else {
        (n - k) as nat
    }
}

/// Factorials are positive.
pub proof fn lemma_fact_positive(n: nat)
    ensures
        fact(n) >= 1,
    decreases n,
{
    if n > 0 {
        lemma_fact_positive((n - 1) as nat);
        assert(n * fact((n - 1) as nat) >= 1) by (nonlinear_arith)
            requires
                n >= 1,
                fact((n - 1) as nat) >= 1,
        ;
    }
}

/// Factorials grow with their argument.
pub proof fn lemma_fact_monotone(m: nat, n: nat)
    requires
        m <= n,
    ensures
        fact(m) <= fact(n),
    decreases n,
{
    if m < n {
        lemma_fact_monotone(m, (n - 1) as nat);
        lemma_fact_positive((n - 1) as nat);
        assert(fact((n - 1) as nat) <= n * fact((n - 1) as nat)) by (nonlinear_arith)
            requires
                n >= 1,
        ;
    }
}

/// The falling factorial grows when a larger factor is put on top.
pub proof fn lemma_falling_monotone(j: nat, t: nat, n: nat, k: nat)
    requires
        t <= j <= n,
        j - t == n - k,
    ensures
        falling(j, t) <= falling(n, k),
    decreases n - j,
{
    if j < n {
        lemma_falling_monotone(j + 1, t + 1, n, k);
        assert(falling(j, t) <= (j + 1) * falling(j, t)) by (nonlinear_arith);
    }
}

/// `n! == n * (n - 1) * ... * (n - k + 1) * (n - k)!`.
pub proof fn lemma_fact_split(n: nat, k: nat)
    requires
        k <= n,
    ensures
        fact(n) == falling(n, k) * fact((n - k) as nat),
    decreases k,
{
    if k > 0 {
        lemma_fact_split((n - 1) as nat, (k - 1) as nat);
        let f = falling((n - 1) as nat, (k - 1) as nat);
        let g = fact((n - k) as nat);
        assert(((n - 1) as nat - (k - 1) as nat) as nat == (n - k) as nat);
        assert(fact(n) == n * fact((n - 1) as nat));
        assert(falling(n, k) == n * f);
        assert(fact((n - 1) as nat) == f * g);
        assert(n * (f * g) == (n * f) * g) by (nonlinear_arith);
        assert(fact(n) == falling(n, k) * g);
    } else {
        assert(falling(n, 0) == 1);
        assert(fact(n) == 1 * fact(n));
    }
}

/// `k! <= n * (n - 1) * ... * (n - k + 1)`.
pub proof fn lemma_fact_le_falling(n: nat, k: nat)
    requires
        k <= n,
    ensures
        fact(k) <= falling(n, k),
    decreases k,
{
    if k > 0 {
        lemma_fact_le_falling((n - 1) as nat, (k - 1) as nat);
        let a = fact((k - 1) as nat);
        let b = falling((n - 1) as nat, (k - 1) as nat);
        assert(k * a <= n * b) by (nonlinear_arith)
            requires
                k <= n,
                a <= b,
        ;
    }
}

/// The binomial coefficient is the falling factorial divided by `k!`.
pub proof fn lemma_binomial_falling(n: nat, k: nat)
    requires
        k <= n,
    ensures
        binomial(n, k) == falling(n, k) / fact(k),
{
    lemma_fact_split(n, k);
    lemma_fact_positive(k);
    lemma_fact_positive((n - k) as nat);
    let f = falling(n, k);
    let a = fact(k);
    let b = fact((n - k) as nat);
    assert((f * b) / (a * b) == f / a) by {
        vstd::arithmetic::div_mod::lemma_div_denominator(f as int, a as int, b as int);
        vstd::arithmetic::div_mod::lemma_div_by_multiple((f / a) as int, b as int);
        assert((f * b) / b == f) by {
            vstd::arithmetic::div_mod::lemma_div_by_multiple(f as int, b as int);
        }
        assert((f * b) / (a * b) == ((f * b) / b) / a) by {
            vstd::arithmetic::div_mod::lemma_div_denominator((f * b) as int, b as int, a as int);
            assert(b * a == a * b) by (nonlinear_arith);
        }
    }
}

/// Choosing `k` out of `n` is choosing the `n - k` that are left out.
pub proof fn lemma_binomial_symmetric(n: nat, k: nat)
    requires
        k <= n,
    ensures
        binomial(n, k) == binomial(n, (n - k) as nat),
        short_side(n, k) == short_side(n, (n - k) as nat),
{
    let a = fact(k);
    let b = fact((n - k) as nat);
    assert(a * b == b * a) by (nonlinear_arith);
    assert((n - (n - k)) as nat == k);
}

proof fn lemma_falling_grows_with_top(n: nat, m: nat, k: nat)
    requires
        n <= m,
    ensures
        falling(n, k) <= falling(m, k),
    decreases k,
{
    if k > 0 && n == 0 {
        assert(falling(n, k) == 0);
    } else if k > 0 {
        lemma_falling_grows_with_top((n - 1) as nat, (m - 1) as nat, (k - 1) as nat);
        let a = falling((n - 1) as nat, (k - 1) as nat);
        let b = falling((m - 1) as nat, (k - 1) as nat);
        assert(n * a <= m * b) by (nonlinear_arith)
            requires
                n <= m,
                a <= b,
        ;
    }
}

proof fn lemma_falling_grows_with_count(n: nat, k: nat, j: nat)
    requires
        k <= j <= n,
    ensures
        falling(n, k) <= falling(n, j),
    decreases j,
{
    if k < j {
        lemma_falling_grows_with_count(n, k, (j - 1) as nat);
        lemma_fact_split(n, (j - 1) as nat);
        lemma_fact_split(n, j);
        // falling(n, j) == falling(n, j - 1) * (n - j + 1), read off the two splits
        let f = falling(n, (j - 1) as nat);
        let g = falling(n, j);
        let c = fact((n - j) as nat);
        let d = (n - j + 1) as nat;
        assert(fact((n - j + 1) as nat) == d * c);
        lemma_fact_positive((n - j) as nat);
        assert(g * c == (f * d) * c) by (nonlinear_arith)
            requires
                g * c == f * (d * c),
        ;
        assert(g == f * d) by (nonlinear_arith)
            requires
                g * c == (f * d) * c,
                c >= 1,
        ;
        assert(f <= f * d) by (nonlinear_arith)
            requires
                d >= 1,
        ;
    }
}

/// Up to `n == 17` the falling factorial behind `n_choose_k` fits in a `u32`.
pub proof fn lemma_choose_fits(n: nat, k: nat)
    requires
        k <= n <= 17,
    ensures
        falling(n, short_side(n, k)) <= u32::MAX,
{
    let m = short_side(n, k);
    assert(m <= 8);
    lemma_falling_grows_with_top(n, 17, m);
    lemma_falling_grows_with_count(17, m, 8);
    reveal_with_fuel(falling, 9);
    assert(falling(17, 8) == 980179200);
}

/// `0! == 1` and `n! == n * (n - 1)!` for `n >= 1`.
pub proof fn lemma_factorial_recurrence(n: nat)
    ensures
        fact(0) == 1,
        n >= 1 ==> fact(n) == n * fact((n - 1) as nat),
{
}

/// The binomial coefficient `n` choose `k`, computed as a falling factorial of
/// `min(k, n - k)` factors divided by the factorial of that count.
pub fn n_choose_k(n: u32, k: u32) -> (r: u32)
    requires
        k <= n,
        falling(n as nat, short_side(n as nat, k as nat)) <= u32::MAX,
    ensures
        r == binomial(n as nat, k as nat),
{
    let m: u32 = if k <= n / 2 { k } else { n - k };
    assert(m == short_side(n as nat, k as nat));
    proof {
        lemma_fact_le_falling(n as nat, m as nat);
        lemma_fact_positive(m as nat);
        lemma_binomial_falling(n as nat, m as nat);
        lemma_binomial_symmetric(n as nat, k as nat);
    }
    falling_factorial(n, m) / factorial(m)
}

/// `n * (n - 1) * ... * (n - k + 1)`, multiplied from the smallest factor up.
pub fn falling_factorial(n: u32, k: u32) -> (r: u32)
    requires
        k <= n,
        falling(n as nat, k as nat) <= u32::MAX,
    ensures
        r == falling(n as nat, k as nat),
{
    let mut acc: u32 = 1;
    let mut i: u32 = 0;
    while i < k
        invariant
            k <= n,
            falling(n as nat, k as nat) <= u32::MAX,
            i <= k,
            acc == falling((n - k + i) as nat, i as nat),
        decreases k - i,
    {
        let x: u32 = (n - k) + (i + 1);
        proof {
            lemma_falling_monotone(x as nat, (i + 1) as nat, n as nat, k as nat);
            assert(falling(x as nat, (i + 1) as nat) == x * falling((x - 1) as nat, i as nat));
            assert(acc * x == x * acc) by (nonlinear_arith);
        }
        acc = acc * x;
        i = i + 1;
    }
    acc
}

/// `n!`, the product `1 * 2 * ... * n`.
pub fn factorial(n: u32) -> (r: u32)
    requires
        fact(n as nat) <= u32::MAX,
    ensures
        r == fact(n as nat),
{
    let mut acc: u32 = 1;
    let mut x: u32 = 0;
    while x < n
        invariant
            x <= n,
            fact(n as nat) <= u32::MAX,
            acc == fact(x as nat),
        decreases n - x,
    {
        x = x + 1;
        proof {
            lemma_fact_monotone(x as nat, n as nat);
            assert(fact(x as nat) == x * fact((x - 1) as nat));
            assert(acc * x == x * acc) by (nonlinear_arith);
        }
        acc = acc * x;
    }
    acc
}

} // verus!
