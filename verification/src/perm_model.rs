//! Mathematical model of the permutation generation order.
//!
//! A permutation state is a permutation of `{0, ..., n-1}` together with a
//! mixed-radix counting array. The state for a global index `idx` in
//! `[0, n!)` is obtained by decoding `idx` in the factorial number system:
//! for each level `i` from `n-1` down to `1`, the digit `idx / i!` (of the
//! running remainder) rotates the prefix of length `i+1` left by that many
//! places and is recorded in the counting array. The successor step rotates
//! the prefix of length 2 (a swap of the first two elements) and then runs a
//! carry scan over the counting array; this module proves that the successor
//! step moves the decoded state for `idx` to the decoded state for `idx + 1`.

use vstd::prelude::*;
use crate::factorials::{fact, lemma_fact_positive, lemma_fact_small_values};

verus! {

/// A permutation of `{0, ..., len-1}`: every value in range, no repeats.
pub open spec fn is_permutation(s: Seq<u8>) -> bool {
    &&& forall|j: int| 0 <= j < s.len() ==> 0 <= #[trigger] s[j] < s.len()
    &&& forall|j: int, k: int| 0 <= j < s.len() && 0 <= k < s.len() && j != k ==> s[j] != s[k]
}

pub open spec fn identity_perm(n: nat) -> Seq<u8> {
    Seq::new(n, |j: int| j as u8)
}

/// Rotate the prefix of length `k` left by `d` places; positions `>= k` stay.
pub open spec fn rotl(s: Seq<u8>, k: int, d: int) -> Seq<u8> {
    Seq::new(s.len(), |j: int| if j < k { s[(j + d) % k] } else { s[j] })
}

/// The spec-level permutation state: the permutation and its counting array.
pub struct StateModel {
    pub perm: Seq<u8>,
    pub count: Seq<usize>,
}

pub open spec fn state_wf(s: StateModel, n: nat) -> bool {
    &&& s.perm.len() == n
    &&& s.count.len() == n
    &&& is_permutation(s.perm)
    &&& forall|i: int| 0 <= i < n ==> #[trigger] s.count[i] <= i
}

/// Decode the factorial-number-system digits of `rem` into rotations and
/// counting-array entries, from level `i` down to level 1.
pub open spec fn decode_levels(s: StateModel, i: nat, rem: nat) -> StateModel
    decreases i,
{
    if i == 0 {
        s
    } else {
        let d = rem / fact(i);
        let next = StateModel {
            perm: rotl(s.perm, (i + 1) as int, d as int),
            count: s.count.update(i as int, d as usize),
        };
        decode_levels(next, (i - 1) as nat, rem % fact(i))
    }
}

/// The canonical state for global index `idx` in `[0, n!)`.
pub open spec fn initial_state(n: nat) -> StateModel {
    StateModel { perm: identity_perm(n), count: Seq::new(n, |j: int| 0usize) }
}

pub open spec fn state_at(n: nat, idx: nat) -> StateModel {
    if n == 0 {
        initial_state(0)
    } else {
        decode_levels(initial_state(n), (n - 1) as nat, idx)
    }
}

/// The carry scan of the successor step, from level `i` upward: increment
/// the digit at the level, stop if it did not overflow, otherwise reset it,
/// rotate the prefix of the next level and continue.
pub open spec fn carry_scan(s: StateModel, i: nat) -> StateModel
    decreases s.count.len() - i,
{
    if i >= s.count.len() {
        s
    } else if s.count[i as int] + 1 <= i {
        StateModel { perm: s.perm, count: s.count.update(i as int, (s.count[i as int] + 1) as usize) }
    } else {
        let reset = StateModel {
            perm: if i + 2 <= s.perm.len() { rotl(s.perm, (i + 2) as int, 1) } else { s.perm },
            count: s.count.update(i as int, 0usize),
        };
        carry_scan(reset, i + 1)
    }
}

/// The successor step: swap the first two elements (the level-1 rotation),
/// then run the carry scan from level 1.
pub open spec fn step_state(s: StateModel) -> StateModel {
    carry_scan(StateModel { perm: rotl(s.perm, 2, 1), count: s.count }, 1)
}

// ---------------------------------------------------------------------------
// Rotation lemmas
// ---------------------------------------------------------------------------

pub proof fn lemma_rotl_zero(s: Seq<u8>, k: int)
    requires
        0 < k <= s.len(),
    ensures
        rotl(s, k, 0) =~= s,
{
    assert forall|j: int| 0 <= j < s.len() implies rotl(s, k, 0)[j] == s[j] by {
        if j < k {
            vstd::arithmetic::div_mod::lemma_small_mod(j as nat, k as nat);
        }
    }
}

pub proof fn lemma_rotl_compose(s: Seq<u8>, k: int, a: int, b: int)
    requires
        0 < k <= s.len(),
        0 <= a,
        0 <= b,
    ensures
        rotl(rotl(s, k, a), k, b) =~= rotl(s, k, a + b),
{
    assert forall|j: int| 0 <= j < s.len() implies rotl(rotl(s, k, a), k, b)[j] == rotl(
        s,
        k,
        a + b,
    )[j] by {
        if j < k {
            assert(0 <= (j + b) % k < k) by {
                vstd::arithmetic::div_mod::lemma_mod_bound(j + b, k);
            }
            assert(rotl(rotl(s, k, a), k, b)[j] == s[((j + b) % k + a) % k]);
            assert(((j + b) % k + a) % k == (j + b + a) % k) by {
                vstd::arithmetic::div_mod::lemma_add_mod_noop(j + b, a, k);
                vstd::arithmetic::div_mod::lemma_mod_twice(a, k);
                vstd::arithmetic::div_mod::lemma_add_mod_noop((j + b) % k, a % k, k);
                vstd::arithmetic::div_mod::lemma_mod_twice(j + b, k);
                vstd::arithmetic::div_mod::lemma_add_mod_noop((j + b) % k, a, k);
            }
        }
    }
}

pub proof fn lemma_rotl_full(s: Seq<u8>, k: int)
    requires
        0 < k <= s.len(),
    ensures
        rotl(s, k, k) =~= s,
{
    assert forall|j: int| 0 <= j < s.len() implies rotl(s, k, k)[j] == s[j] by {
        if j < k {
            assert((j + k) % k == j) by {
                vstd::arithmetic::div_mod::lemma_mod_multiples_vanish(1, j, k);
                vstd::arithmetic::div_mod::lemma_small_mod(j as nat, k as nat);
            }
        }
    }
}

pub proof fn lemma_rotl_permutation(s: Seq<u8>, k: int, d: int)
    requires
        0 < k <= s.len(),
        0 <= d,
        is_permutation(s),
    ensures
        is_permutation(rotl(s, k, d)),
        rotl(s, k, d).len() == s.len(),
{
    let r = rotl(s, k, d);
    assert forall|j: int| 0 <= j < r.len() implies 0 <= #[trigger] r[j] < r.len() by {
        if j < k {
            vstd::arithmetic::div_mod::lemma_mod_bound(j + d, k);
        }
    }
    assert forall|j: int, m: int|
        0 <= j < r.len() && 0 <= m < r.len() && j != m implies r[j] != r[m] by {
        if j < k && m < k {
            vstd::arithmetic::div_mod::lemma_mod_bound(j + d, k);
            vstd::arithmetic::div_mod::lemma_mod_bound(m + d, k);
            if (j + d) % k == (m + d) % k {
                vstd::arithmetic::div_mod::lemma_mod_equivalence(j + d, m + d, k);
                assert((j - m) % k == 0);
                if j > m {
                    vstd::arithmetic::div_mod::lemma_small_mod((j - m) as nat, k as nat);
                } else {
                    vstd::arithmetic::div_mod::lemma_mod_equivalence(m + d, j + d, k);
                    vstd::arithmetic::div_mod::lemma_small_mod((m - j) as nat, k as nat);
                }
                assert(false);
            }
        } else if j < k {
            vstd::arithmetic::div_mod::lemma_mod_bound(j + d, k);
        } else if m < k {
            vstd::arithmetic::div_mod::lemma_mod_bound(m + d, k);
        }
    }
}

// ---------------------------------------------------------------------------
// Well-formedness
// ---------------------------------------------------------------------------

pub proof fn lemma_identity_is_permutation(n: nat)
    requires
        n <= 255,
    ensures
        is_permutation(identity_perm(n)),
        identity_perm(n).len() == n,
{
}

/// Digits of a remainder below `(i+1)!` are in range, and decoding keeps the
/// permutation property; entries above level `i` are untouched.
pub proof fn lemma_decode_levels_wf(s: StateModel, i: nat, rem: nat)
    requires
        is_permutation(s.perm),
        s.count.len() == s.perm.len(),
        i < s.perm.len(),
        rem < fact(i + 1),
    ensures
        decode_levels(s, i, rem).perm.len() == s.perm.len(),
        decode_levels(s, i, rem).count.len() == s.count.len(),
        is_permutation(decode_levels(s, i, rem).perm),
        forall|j: int|
            0 <= j < s.count.len() && !(1 <= j <= i) ==> #[trigger] decode_levels(
                s,
                i,
                rem,
            ).count[j] == s.count[j],
        forall|j: int| 1 <= j <= i ==> #[trigger] decode_levels(s, i, rem).count[j] <= j,
    decreases i,
{
    if i > 0 {
        let d = rem / fact(i);
        lemma_fact_positive(i);
        assert(fact(i + 1) == (i + 1) * fact(i));
        vstd::arithmetic::div_mod::lemma_fundamental_div_mod(rem as int, fact(i) as int);
        assert(d <= i) by (nonlinear_arith)
            requires
                rem < (i + 1) * fact(i),
                rem == fact(i) * (rem as int / fact(i) as int) + rem as int % fact(i) as int,
                d == rem as int / fact(i) as int,
                0 <= rem as int % fact(i) as int,
                fact(i) >= 1,
                i >= 1;
        vstd::arithmetic::div_mod::lemma_mod_bound(rem as int, fact(i) as int);
        let next = StateModel {
            perm: rotl(s.perm, (i + 1) as int, d as int),
            count: s.count.update(i as int, d as usize),
        };
        lemma_rotl_permutation(s.perm, (i + 1) as int, d as int);
        lemma_decode_levels_wf(next, (i - 1) as nat, rem % fact(i));
    }
}

pub proof fn lemma_state_at_wf(n: nat, idx: nat)
    requires
        n <= 16,
        idx < fact(n),
    ensures
        state_wf(state_at(n, idx), n),
    decreases n,
{
    lemma_identity_is_permutation(n);
    if n > 0 {
        lemma_decode_levels_wf(initial_state(n), (n - 1) as nat, idx);
    }
}

/// The carry scan keeps states well formed.
proof fn lemma_carry_scan_wf(s: StateModel, i: nat, n: nat)
    requires
        s.perm.len() == n,
        s.count.len() == n,
        is_permutation(s.perm),
        1 <= i,
        forall|j: int| 0 <= j < n ==> #[trigger] s.count[j] <= j,
    ensures
        state_wf(carry_scan(s, i), n),
    decreases n - i,
{
    if i >= n {
    } else if s.count[i as int] + 1 <= i {
    } else {
        let reset = StateModel {
            perm: if i + 2 <= s.perm.len() { rotl(s.perm, (i + 2) as int, 1) } else { s.perm },
            count: s.count.update(i as int, 0usize),
        };
        if i + 2 <= s.perm.len() {
            lemma_rotl_permutation(s.perm, (i + 2) as int, 1);
        }
        lemma_carry_scan_wf(reset, i + 1, n);
    }
}

// ---------------------------------------------------------------------------
// The successor step advances the decoded index by one
// ---------------------------------------------------------------------------

/// The counting array with levels `1..=j` cleared.
pub open spec fn zero_levels(c: Seq<usize>, j: nat) -> Seq<usize> {
    Seq::new(c.len(), |m: int| if 1 <= m <= j { 0usize } else { c[m] })
}

proof fn lemma_decode_zero(t: StateModel, j: nat)
    requires
        t.count.len() == t.perm.len(),
        j + 1 <= t.perm.len(),
    ensures
        decode_levels(t, j, 0) == (StateModel { perm: t.perm, count: zero_levels(t.count, j) }),
    decreases j,
{
    if j == 0 {
        assert(zero_levels(t.count, 0) =~= t.count);
    } else {
        lemma_fact_positive(j);
        assert(0nat / fact(j) == 0) by {
            vstd::arithmetic::div_mod::lemma_div_of0(fact(j) as int);
        }
        assert(0nat % fact(j) == 0) by {
            vstd::arithmetic::div_mod::lemma_small_mod(0, fact(j));
        }
        lemma_rotl_zero(t.perm, (j + 1) as int);
        let next = StateModel { perm: rotl(t.perm, (j + 1) as int, 0), count: t.count.update(j as int, 0usize) };
        lemma_decode_zero(next, (j - 1) as nat);
        assert(zero_levels(next.count, (j - 1) as nat) =~= zero_levels(t.count, j));
    }
}

/// Stepping the state whose low digits `1..=j` are all at their maximum
/// clears them, rotates the prefix of length `j+2` once, and hands the
/// carry on to level `j+1`.
proof fn lemma_cascade(t: StateModel, j: nat)
    requires
        is_permutation(t.perm),
        t.count.len() == t.perm.len(),
        t.perm.len() <= 16,
        1 <= j,
        j + 2 <= t.perm.len(),
    ensures
        step_state(decode_levels(t, j, (fact(j + 1) - 1) as nat)) == carry_scan(
            StateModel { perm: rotl(t.perm, (j + 2) as int, 1), count: zero_levels(t.count, j) },
            j + 1,
        ),
    decreases j,
{
    let p = t.perm;
    let c = t.count;
    lemma_fact_positive(j);
    if j == 1 {
        lemma_fact_small_values();
        let next = StateModel { perm: rotl(p, 2, 1), count: c.update(1, 1usize) };
        assert(decode_levels(t, 1, 1) == decode_levels(next, 0, 1nat % fact(1)));
        assert(1nat % fact(1) == 0) by {
            vstd::arithmetic::div_mod::lemma_mod_self_0(1);
        }
        lemma_rotl_compose(p, 2, 1, 1);
        lemma_rotl_full(p, 2);
        assert(rotl(next.perm, 2, 1) == p);
        assert(step_state(next) == carry_scan(
            StateModel { perm: rotl(p, 2, 2), count: c.update(1, 1usize) },
            1,
        ));
        assert(c.update(1, 1usize)[1] + 1 > 1);
        assert(c.update(1, 1usize).update(1, 0usize) =~= zero_levels(c, 1));
        assert(rotl(rotl(p, 2, 2), 3, 1) == rotl(p, 3, 1));
    } else {
        let f = fact(j);
        let rem = (fact(j + 1) - 1) as nat;
        assert(fact(j + 1) == (j + 1) * f);
        assert((j + 1) * f == j * f + f) by (nonlinear_arith);
        vstd::arithmetic::div_mod::lemma_fundamental_div_mod_converse(
            rem as int,
            f as int,
            j as int,
            (f - 1) as int,
        );
        assert(rem / f == j && rem % f == (f - 1) as nat);
        let t2 = StateModel { perm: rotl(p, (j + 1) as int, j as int), count: c.update(j as int, j as usize) };
        assert(decode_levels(t, j, rem) == decode_levels(t2, (j - 1) as nat, (fact(j) - 1) as nat));
        lemma_rotl_permutation(p, (j + 1) as int, j as int);
        lemma_cascade(t2, (j - 1) as nat);
        // The carry arrives at level j, whose digit is at its maximum too.
        let s1 = StateModel {
            perm: rotl(t2.perm, (j + 1) as int, 1),
            count: zero_levels(t2.count, (j - 1) as nat),
        };
        assert(s1.count[j as int] == j as usize);
        assert(s1.count[j as int] + 1 > j);
        lemma_rotl_compose(p, (j + 1) as int, j as int, 1);
        lemma_rotl_full(p, (j + 1) as int);
        assert(s1.perm == p);
        assert(carry_scan(s1, j) == carry_scan(
            StateModel {
                perm: rotl(s1.perm, (j + 2) as int, 1),
                count: s1.count.update(j as int, 0usize),
            },
            j + 1,
        ));
        assert(s1.count.update(j as int, 0usize) =~= zero_levels(c, j));
        assert(rotl(s1.perm, (j + 2) as int, 1) == rotl(p, (j + 2) as int, 1));
    }
}

/// The successor step turns the decoding of `rem` into the decoding of
/// `rem + 1`, for every remainder with a successor below `(i+1)!`.
proof fn lemma_step_decode(s: StateModel, i: nat, rem: nat)
    requires
        is_permutation(s.perm),
        s.count.len() == s.perm.len(),
        s.perm.len() <= 16,
        1 <= i,
        i + 1 <= s.perm.len(),
        rem + 1 < fact(i + 1),
    ensures
        step_state(decode_levels(s, i, rem)) == decode_levels(s, i, rem + 1),
    decreases i,
{
    let p = s.perm;
    let c = s.count;
    lemma_fact_positive(i);
    if i == 1 {
        lemma_fact_small_values();
        assert(rem == 0);
        lemma_rotl_zero(p, 2);
        let next0 = StateModel { perm: rotl(p, 2, 0), count: c.update(1, 0usize) };
        assert(0nat % fact(1) == 0 && 0nat / fact(1) == 0 && 1nat % fact(1) == 0 && 1nat / fact(1)
            == 1) by {
            vstd::arithmetic::div_mod::lemma_small_mod(0, 1);
            vstd::arithmetic::div_mod::lemma_mod_self_0(1);
            vstd::arithmetic::div_mod::lemma_div_of0(1);
            vstd::arithmetic::div_mod::lemma_div_by_self(1);
        }
        assert(decode_levels(s, 1, 0) == decode_levels(next0, 0, 0nat % fact(1)));
        assert(decode_levels(next0, 0, 0) == next0);
        let next1 = StateModel { perm: rotl(p, 2, 1), count: c.update(1, 1usize) };
        assert(decode_levels(s, 1, 1) == decode_levels(next1, 0, 1nat % fact(1)));
        assert(decode_levels(next1, 0, 0) == next1);
        assert(rotl(next0.perm, 2, 1) == rotl(p, 2, 1));
        assert(next0.count[1] + 1 <= 1);
        assert(c.update(1, 0usize).update(1, 1usize) =~= c.update(1, 1usize));
    } else {
        let f = fact(i);
        let d = rem / f;
        let r0 = rem % f;
        assert(fact(i + 1) == (i + 1) * f);
        vstd::arithmetic::div_mod::lemma_fundamental_div_mod(rem as int, f as int);
        vstd::arithmetic::div_mod::lemma_mod_bound(rem as int, f as int);
        let next = StateModel { perm: rotl(p, (i + 1) as int, d as int), count: c.update(i as int, d as usize) };
        assert(decode_levels(s, i, rem) == decode_levels(next, (i - 1) as nat, r0));
        lemma_rotl_permutation(p, (i + 1) as int, d as int);
        if r0 + 1 < f {
            vstd::arithmetic::div_mod::lemma_fundamental_div_mod_converse(
                (rem + 1) as int,
                f as int,
                d as int,
                (r0 + 1) as int,
            );
            assert((rem + 1) / f == d && (rem + 1) % f == r0 + 1);
            lemma_step_decode(next, (i - 1) as nat, r0);
            assert(decode_levels(s, i, rem + 1) == decode_levels(next, (i - 1) as nat, r0 + 1));
        } else {
            assert(r0 + 1 == f);
            assert(rem + 1 == d * f + f);
            assert(d * f + f == (d + 1) * f) by (nonlinear_arith);
            vstd::arithmetic::div_mod::lemma_fundamental_div_mod_converse(
                (rem + 1) as int,
                f as int,
                (d + 1) as int,
                0,
            );
            assert((rem + 1) / f == d + 1 && (rem + 1) % f == 0);
            assert(d + 1 <= i) by (nonlinear_arith)
                requires
                    ((rem + 1) as int) == (d + 1) * f,
                    ((rem + 1) as int) < (i + 1) * f,
                    f >= 1,
                    0 <= d,
                    1 <= i;
            lemma_cascade(next, (i - 1) as nat);
            let s1 = StateModel {
                perm: rotl(next.perm, (i + 1) as int, 1),
                count: zero_levels(next.count, (i - 1) as nat),
            };
            assert(step_state(decode_levels(next, (i - 1) as nat, (fact(i) - 1) as nat))
                == carry_scan(s1, i));
            assert(s1.count[i as int] == d as usize);
            assert(s1.count[i as int] + 1 <= i);
            assert(carry_scan(s1, i) == (StateModel {
                perm: s1.perm,
                count: s1.count.update(i as int, (d + 1) as usize),
            }));
            lemma_rotl_compose(p, (i + 1) as int, d as int, 1);
            assert(s1.perm == rotl(p, (i + 1) as int, (d + 1) as int));
            let next1 = StateModel {
                perm: rotl(p, (i + 1) as int, (d + 1) as int),
                count: c.update(i as int, (d + 1) as usize),
            };
            assert(decode_levels(s, i, rem + 1) == decode_levels(next1, (i - 1) as nat, 0));
            lemma_decode_zero(next1, (i - 1) as nat);
            assert(s1.count.update(i as int, (d + 1) as usize) =~= zero_levels(
                next1.count,
                (i - 1) as nat,
            ));
        }
    }
}

/// The sequencer's successor step moves the state at global index `idx` to
/// the state at `idx + 1`.
pub proof fn lemma_step_at(n: nat, idx: nat)
    requires
        2 <= n <= 16,
        idx + 1 < fact(n),
    ensures
        step_state(state_at(n, idx)) == state_at(n, idx + 1),
{
    lemma_identity_is_permutation(n);
    lemma_step_decode(initial_state(n), (n - 1) as nat, idx);
}

/// The generation order starts at the identity permutation with all digits
/// zero.
pub proof fn lemma_state_at_zero(n: nat)
    ensures
        state_at(n, 0) == initial_state(n),
{
    if n > 0 {
        lemma_decode_zero(initial_state(n), (n - 1) as nat);
        assert(zero_levels(initial_state(n).count, (n - 1) as nat) =~= initial_state(n).count);
    }
}

/// `m`-fold application of the successor step.
pub open spec fn iterate_steps(s: StateModel, m: nat) -> StateModel
    decreases m,
{
    if m == 0 {
        s
    } else {
        step_state(iterate_steps(s, (m - 1) as nat))
    }
}

/// Seeding and sequencing agree: the state decoded directly from `idx`
/// equals the state obtained from the identity by `idx` successor steps.
pub proof fn lemma_seed_equals_iterated_steps(n: nat, idx: nat)
    requires
        n <= 16,
        idx < fact(n),
    ensures
        state_at(n, idx) == iterate_steps(state_at(n, 0), idx),
    decreases idx,
{
    if idx > 0 {
        if n < 2 {
            lemma_fact_small_values();
            assert(false);
        }
        lemma_seed_equals_iterated_steps(n, (idx - 1) as nat);
        lemma_step_at(n, (idx - 1) as nat);
    }
}

pub proof fn lemma_step_state_wf(s: StateModel, n: nat)
    requires
        state_wf(s, n),
        n >= 2,
    ensures
        state_wf(step_state(s), n),
{
    lemma_rotl_permutation(s.perm, 2, 1);
    lemma_carry_scan_wf(StateModel { perm: rotl(s.perm, 2, 1), count: s.count }, 1, n);
}

} // verus!
