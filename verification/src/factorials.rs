//! Factorials: the mathematical definition, the bounded lookup table used by
//! the fannkuch engine, and the plain factorial function.

use vstd::prelude::*;

verus! {

/// One more than the largest permutation size the engine accepts; chosen so
/// that `fact(n)` for `n < N_MAX` fits comfortably in a `u64` index.
pub const N_MAX: usize = 16;

/// Largest argument `factorial` accepts: `fact(20)` is the largest factorial
/// that fits in a `u64`.
pub const FACTORIAL_ARG_MAX: u64 = 20;

pub open spec fn fact(n: nat) -> nat
    decreases n,
{
    if n == 0 {
        1
    } else {
        n * fact((n - 1) as nat)
    }
}

pub proof fn lemma_fact_positive(n: nat)
    ensures
        fact(n) >= 1,
    decreases n,
{
    if n > 0 {
        lemma_fact_positive((n - 1) as nat);
        assert(n * fact((n - 1) as nat) >= n * 1) by (nonlinear_arith)
            requires fact((n - 1) as nat) >= 1 && n > 0;
    }
}

pub proof fn lemma_fact_monotonic(i: nat, j: nat)
    requires
        i <= j,
    ensures
        fact(i) <= fact(j),
    decreases j,
{
    if i < j {
        lemma_fact_monotonic(i, (j - 1) as nat);
        lemma_fact_positive((j - 1) as nat);
        assert(fact((j - 1) as nat) <= j * fact((j - 1) as nat)) by (nonlinear_arith)
            requires fact((j - 1) as nat) >= 1 && j >= 1;
    }
}

pub proof fn lemma_fact_small_values()
    ensures
        fact(0) == 1,
        fact(1) == 1,
        fact(2) == 2,
{
    assert(fact(0) == 1);
    assert(fact(1) == 1);
    assert(fact(2) == 2);
}

pub proof fn lemma_fact_15_value()
    ensures
        fact(15) == 1307674368000,
{
    assert(fact(0) == 1);
    assert(fact(1) == 1);
    assert(fact(2) == 2);
    assert(fact(3) == 6);
    assert(fact(4) == 24);
    assert(fact(5) == 120);
    assert(fact(6) == 720);
    assert(fact(7) == 5040);
    assert(fact(8) == 40320);
    assert(fact(9) == 362880);
    assert(fact(10) == 3628800);
    assert(fact(11) == 39916800);
    assert(fact(12) == 479001600);
    assert(fact(13) == 6227020800);
    assert(fact(14) == 87178291200);
    assert(fact(15) == 1307674368000);
}

pub proof fn lemma_fact_20_value()
    ensures
        fact(20) == 2432902008176640000,
{
    lemma_fact_15_value();
    assert(fact(16) == 20922789888000);
    assert(fact(17) == 355687428096000);
    assert(fact(18) == 6402373705728000);
    assert(fact(19) == 121645100408832000);
    assert(fact(20) == 2432902008176640000);
}

/// The factorial lookup table shared by the planner, the seeder and the
/// engine: entry `i` holds `i!` for every `i < N_MAX`.
pub open spec fn is_factorial_table(t: Seq<u64>) -> bool {
    &&& t.len() == N_MAX
    &&& forall|i: int| 0 <= i < N_MAX ==> t[i] == fact(i as nat)
}

pub fn factorial_table() -> (t: Vec<u64>)
    ensures
        is_factorial_table(t@),
{
    let mut t: Vec<u64> = Vec::new();
    t.push(1);
    let mut i: usize = 1;
    while i < N_MAX
        invariant
            1 <= i <= N_MAX,
            t@.len() == i,
            forall|j: int| 0 <= j < i ==> t@[j] == fact(j as nat),
        decreases N_MAX - i,
    {
        proof {
            lemma_fact_monotonic(i as nat, 15);
            lemma_fact_15_value();
            assert(i * fact((i - 1) as nat) == fact(i as nat));
        }
        let next: u64 = (i as u64) * t[i - 1];
        t.push(next);
        i = i + 1;
    }
    t
}

/// Plain factorial of a `u64`, bounded so that the product never overflows.
pub fn factorial(n: u64) -> (result: u64)
    requires
        n <= FACTORIAL_ARG_MAX,
    ensures
        result == fact(n as nat),
{
    let mut result: u64 = 1;
    let mut i: u64 = 1;
    while i <= n
        invariant
            1 <= i <= n + 1,
            n <= FACTORIAL_ARG_MAX,
            result == fact((i - 1) as nat),
        decreases n + 1 - i,
    {
        proof {
            lemma_fact_monotonic(i as nat, 20);
            lemma_fact_20_value();
            assert(i * fact((i - 1) as nat) == fact(i as nat));
            assert(result * i == fact(i as nat)) by (nonlinear_arith)
                requires
                    result == fact((i - 1) as nat),
                    fact(i as nat) == i * fact((i - 1) as nat);
        }
        result = result * i;
        i = i + 1;
    }
    result
}

} // verus!
