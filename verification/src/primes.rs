//! Primality test by trial division and the search for the last prime below a
//! bound.

use vstd::prelude::*;

verus! {

pub open spec fn is_prime_spec(n: nat) -> bool {
    n >= 2 && forall|d: nat| 2 <= d < n ==> #[trigger] (n % d) != 0
}

/// A divisor `d` of `n` with `2 <= d < n` has a cofactor `n / d`, and one of
/// the two is at most the square root of `n`.
proof fn lemma_small_divisor(n: nat, d: nat)
    requires
        2 <= d < n,
        n % d == 0,
    ensures
        exists|e: nat| 2 <= e && e * e <= n && #[trigger] (n % e) == 0,
{
    let q = n / d;
    vstd::arithmetic::div_mod::lemma_fundamental_div_mod(n as int, d as int);
    assert(n == d * q);
    if d * d <= n {
        assert(2 <= d && d * d <= n && n % d == 0);
    } else {
        // The cofactor is small: q * q <= n.
        assert(q * q <= n) by (nonlinear_arith)
            requires n == d * q && d * d > n && n > 0;
        assert(q >= 2) by (nonlinear_arith)
            requires n == d * q && 2 <= d < n;
        assert(n % q == 0) by (nonlinear_arith)
            requires n == d * q && q >= 2;
        assert(2 <= q && q * q <= n && n % q == 0);
    }
}

/// Checks whether `n` is prime by trial division up to the square root.
pub fn is_prime(n: u32) -> (result: bool)
    ensures
        result == is_prime_spec(n as nat),
{
    if n < 2 {
        return false;
    }
    let mut i: u32 = 2;
    while i <= n / i
        invariant
            2 <= i <= n,
            n >= 2,
            forall|d: nat| 2 <= d < i ==> #[trigger] ((n as nat) % d) != 0,
        decreases n - i,
    {
        proof {
            vstd::arithmetic::div_mod::lemma_fundamental_div_mod(n as int, i as int);
            assert(i < n && (i as int) * (i as int) <= n as int) by (nonlinear_arith)
                requires
                    i as int <= (n as int) / (i as int),
                    n as int == (i as int) * ((n as int) / (i as int)) + (n as int) % (
                    i as int),
                    0 <= (n as int) % (i as int),
                    2 <= i;
        }
        if n % i == 0 {
            assert(2 <= (i as nat) && (i as nat) < (n as nat) && (n as nat) % (i as nat) == 0);
            return false;
        }
        i = i + 1;
    }
    // No divisor up to the square root: none at all.
    proof {
        vstd::arithmetic::div_mod::lemma_fundamental_div_mod(n as int, i as int);
        assert((n as int) < (i as int) * (i as int)) by (nonlinear_arith)
            requires
                i as int > (n as int) / (i as int),
                n as int == (i as int) * ((n as int) / (i as int)) + (n as int) % (i as int),
                (n as int) % (i as int) < i as int,
                2 <= i;
        if !is_prime_spec(n as nat) {
            let d = choose|d: nat| 2 <= d < n && #[trigger] ((n as nat) % d) == 0;
            lemma_small_divisor(n as nat, d);
            let e = choose|e: nat| 2 <= e && e * e <= n && #[trigger] ((n as nat) % e) == 0;
            assert(e < i) by (nonlinear_arith)
                requires
                    e * e <= n as int,
                    (n as int) < (i as int) * (i as int),
                    e >= 2,
                    i >= 2;
            assert(false);
        }
    }
    true
}

/// Finds the largest prime `p <= max_number`, or 0 when there is none.
pub fn find_last_prime(max_number: u32) -> (result: u32)
    ensures
        result == 0 ==> forall|p: nat| p <= max_number ==> !is_prime_spec(p),
        result != 0 ==> is_prime_spec(result as nat) && result <= max_number,
        forall|p: nat| result < p <= max_number ==> !is_prime_spec(p),
{
    let mut last_prime: u32 = 0;
    let mut idx: u32 = 0;
    while idx < max_number
        invariant
            idx <= max_number,
            last_prime == 0 ==> forall|p: nat| p <= idx ==> !is_prime_spec(p),
            last_prime != 0 ==> is_prime_spec(last_prime as nat) && last_prime <= idx,
            forall|p: nat| last_prime < p <= idx ==> !is_prime_spec(p),
        decreases max_number - idx,
    {
        let i = idx + 1;
        if is_prime(i) {
            last_prime = i;
        }
        idx = i;
    }
    last_prime
}

} // verus!
