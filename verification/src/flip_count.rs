//! The flip count of a permutation: how many prefix reversals, each ending at
//! the position named by the current front element, bring the front to `0`.
//!
//! Termination of that process is proved with a weight function: each flip
//! with front value `v` puts `v` at its home position `v`, gaining weight
//! `2^v`, and can destroy home positions only strictly below `v`, losing at
//! most `2^v - 2`; so the total weight strictly increases and is bounded.
//!
//! The executable counter follows the reversal cycle on a scratch copy: it
//! keeps the front value in a register, writes the old front value at its
//! flipped position, and mirror-swaps the interior of the reversed prefix.

use vstd::prelude::*;
use vstd::pervasive::VecAdditionalExecFns;
use crate::perm_model::is_permutation;

verus! {

pub open spec fn pow2(e: nat) -> nat
    decreases e,
{
    if e == 0 {
        1
    } else {
        2 * pow2((e - 1) as nat)
    }
}

/// Reverse the prefix ending at position `v`; positions above `v` stay.
pub open spec fn prefix_rev(s: Seq<u8>, v: int) -> Seq<u8> {
    Seq::new(s.len(), |j: int| if j <= v { s[v - j] } else { s[j] })
}

/// Weight of the home positions at or above `i`: `2^j` for every position
/// `j >= max(i, 1)` holding its own index.
pub open spec fn home_weight(s: Seq<u8>, i: nat) -> nat
    decreases s.len() - i,
{
    if i >= s.len() {
        0
    } else {
        (if i >= 1 && s[i as int] == i { pow2(i) } else { 0 }) + home_weight(s, i + 1)
    }
}

proof fn lemma_home_weight_le(s: Seq<u8>, i: nat)
    requires
        i <= s.len(),
    ensures
        home_weight(s, i) + pow2(i) <= pow2(s.len()),
    decreases s.len() - i,
{
    if i == s.len() {
    } else {
        lemma_home_weight_le(s, i + 1);
    }
}

proof fn lemma_home_weight_agree(s: Seq<u8>, t: Seq<u8>, i: nat)
    requires
        s.len() == t.len(),
        forall|j: int| i <= j < s.len() ==> s[j] == t[j],
    ensures
        home_weight(s, i) == home_weight(t, i),
    decreases s.len() - i,
{
    if i < s.len() {
        lemma_home_weight_agree(s, t, i + 1);
    }
}

proof fn lemma_prefix_rev_permutation(s: Seq<u8>, v: int)
    requires
        is_permutation(s),
        0 <= v < s.len(),
    ensures
        is_permutation(prefix_rev(s, v)),
{
}

/// One flip with front value `v` raises the home weight by at least 2.
proof fn lemma_flip_gains(s: Seq<u8>, i: nat)
    requires
        is_permutation(s),
        s.len() > 0,
        0 < s[0] < s.len(),
        1 <= i <= s[0],
    ensures
        home_weight(prefix_rev(s, s[0] as int), i) >= home_weight(s, i) + pow2(i),
    decreases s[0] - i,
{
    let v = s[0] as int;
    let r = prefix_rev(s, v);
    if i == v {
        // Position v was not home (its value sits at the front) and is now.
        assert(s[v] != v);
        assert(r[v] == s[0] == v);
        lemma_home_weight_agree(s, r, (i + 1) as nat);
    } else {
        lemma_flip_gains(s, i + 1);
        assert(home_weight(s, i) <= pow2(i) + home_weight(s, i + 1));
        assert(home_weight(r, i) >= home_weight(r, i + 1));
    }
}

/// The number of prefix reversals that bring the front element to `0`.
pub open spec fn flips(s: Seq<u8>) -> nat
    decreases pow2(s.len()) - home_weight(s, 1) when is_permutation(s) via flips_decreases
{
    if s.len() == 0 || s[0] == 0 {
        0
    } else {
        1 + flips(prefix_rev(s, s[0] as int))
    }
}

#[via_fn]
proof fn flips_decreases(s: Seq<u8>) {
    if s.len() > 0 && s[0] != 0 {
        let r = prefix_rev(s, s[0] as int);
        assert(pow2(0) == 1);
        assert(pow2(1) == 2);
        assert(0 < s[0] < s.len());
        lemma_prefix_rev_permutation(s, s[0] as int);
        lemma_flip_gains(s, 1);
        lemma_home_weight_le(r, 1);
        lemma_home_weight_le(s, 1);
    }
}

/// The flip count is bounded by half the weight headroom.
pub proof fn lemma_flips_bound(s: Seq<u8>)
    requires
        is_permutation(s),
    ensures
        2 * flips(s) + home_weight(s, 1) <= pow2(s.len()),
    decreases pow2(s.len()) - home_weight(s, 1),
{
    assert(pow2(0) == 1);
    assert(pow2(1) == 2);
    if s.len() == 0 || s[0] == 0 {
        if s.len() > 0 {
            lemma_home_weight_le(s, 1);
        }
    } else {
        let r = prefix_rev(s, s[0] as int);
        assert(0 < s[0] < s.len());
        lemma_prefix_rev_permutation(s, s[0] as int);
        lemma_flip_gains(s, 1);
        lemma_home_weight_le(r, 1);
        lemma_flips_bound(r);
    }
}

pub proof fn lemma_pow2_increases(i: nat, j: nat)
    requires
        i <= j,
    ensures
        pow2(i) <= pow2(j),
    decreases j,
{
    if i < j {
        lemma_pow2_increases(i, (j - 1) as nat);
    }
}

/// A permutation that already has `0` in front needs no flips.
pub proof fn lemma_flips_front_zero(p: Seq<u8>)
    requires
        is_permutation(p),
        p.len() == 0 || p[0] == 0,
    ensures
        flips(p) == 0,
{
}

/// The identity permutation of every size needs no flips.
pub proof fn lemma_flips_identity(n: nat)
    requires
        n <= 255,
    ensures
        flips(crate::perm_model::identity_perm(n)) == 0,
{
    crate::perm_model::lemma_identity_is_permutation(n);
    lemma_flips_front_zero(crate::perm_model::identity_perm(n));
}

/// Flip count of a permutation, on a private scratch copy; the argument is
/// not changed.
pub fn flip_count(perm: &Vec<u8>) -> (result: u64)
    requires
        is_permutation(perm@),
        perm@.len() < 16,
    ensures
        result == flips(perm@),
{
    let n = perm.len();
    if n == 0 || perm[0] == 0 {
        return 0;
    }
    let mut scratch: Vec<u8> = Vec::new();
    let mut i: usize = 0;
    while i < n
        invariant
            i <= n,
            n == perm@.len(),
            scratch@.len() == i,
            forall|j: int| 0 <= j < i ==> scratch@[j] == perm@[j],
        decreases n - i,
    {
        scratch.push(perm[i]);
        i = i + 1;
    }
    assert(scratch@ =~= perm@);

    let mut fv: u8 = perm[0];
    let mut count: u64 = 0;
    let ghost orig = perm@;
    proof {
        assert(scratch@.update(0, fv) =~= perm@);
    }
    while fv != 0
        invariant
            is_permutation(scratch@.update(0, fv)),
            scratch@.len() == n,
            n == orig.len() < 16,
            fv < n,
            count + flips(scratch@.update(0, fv)) == flips(orig),
            is_permutation(orig),
        decreases flips(scratch@.update(0, fv)),
    {
        let ghost virt0 = scratch@.update(0, fv);
        let v: usize = fv as usize;
        assert(1 <= v < n);
        let nf: u8 = scratch[v];
        assert(nf == virt0[v as int]);
        scratch.set(v, fv);
        let ghost s1 = scratch@;

        // Mirror-swap the interior of the reversed prefix.
        let mut lo: usize = 1;
        let mut hi: usize = v - 1;
        while lo < hi
            invariant
                1 <= lo,
                hi <= v - 1,
                lo + hi == v,
                v < n,
                scratch@.len() == n,
                s1.len() == n,
                forall|m: int| 1 <= m < lo ==> scratch@[m] == s1[v - m],
                forall|m: int| hi < m < v ==> scratch@[m] == s1[v - m],
                forall|m: int| lo <= m <= hi ==> scratch@[m] == s1[m],
                forall|m: int| 0 <= m < n && !(1 <= m < v) ==> scratch@[m] == s1[m],
            decreases hi,
        {
            let a = scratch[lo];
            let b = scratch[hi];
            scratch.set(lo, b);
            scratch.set(hi, a);
            lo = lo + 1;
            hi = hi - 1;
        }

        proof {
            // The scratch with the register at the front is the reversed state.
            let virt1 = scratch@.update(0, nf);
            assert forall|j: int| 0 <= j < n implies virt1[j] == prefix_rev(virt0, v as int)[j]
            by {
                if j == 0 {
                    assert(virt1[0] == nf && virt0[v as int] == nf);
                } else if j < v {
                    if j < lo || j > hi {
                        assert(scratch@[j] == s1[v - j]);
                    } else {
                        assert(lo <= j <= hi && lo >= hi);
                        assert(j == lo && j == hi && 2 * j == v);
                        assert(scratch@[j] == s1[j]);
                    }
                    assert(s1[v - j] == virt0[v - j]);
                } else if j == v {
                    assert(scratch@[j] == s1[j] && s1[v as int] == fv && virt0[0] == fv);
                } else {
                    assert(scratch@[j] == s1[j] && s1[j] == virt0[j]);
                }
            }
            assert(virt1 =~= prefix_rev(virt0, v as int));
            lemma_prefix_rev_permutation(virt0, v as int);
            assert(flips(virt0) == 1 + flips(virt1));
            lemma_flips_bound(orig);
            lemma_pow2_increases(orig.len(), 16);
            assert(pow2(16) == 65536) by {
                reveal_with_fuel(pow2, 17);
            }
            assert(count + 1 + flips(virt1) == flips(orig));
        }
        fv = nf;
        count = count + 1;
    }
    assert(flips(scratch@.update(0, fv)) == 0);
    count
}

} // verus!
