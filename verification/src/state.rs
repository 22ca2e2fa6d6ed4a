//! Executable permutation state: seeding a state directly from a global
//! index, and advancing a state to its successor in the generation order.

use vstd::prelude::*;
use vstd::pervasive::VecAdditionalExecFns;
use crate::factorials::{fact, is_factorial_table, lemma_fact_positive, N_MAX};
use crate::perm_model::{
    rotl, StateModel, decode_levels, state_at, initial_state, carry_scan, step_state,
};

verus! {

/// A permutation of `{0, ..., n-1}` with the mixed-radix counting array that
/// records its position in the generation order.
pub struct PermutationState {
    pub perm: Vec<u8>,
    pub count: Vec<usize>,
}

impl PermutationState {
    pub open spec fn model(&self) -> StateModel {
        StateModel { perm: self.perm@, count: self.count@ }
    }

    pub open spec fn wf_exec(&self, n: nat) -> bool {
        &&& self.perm@.len() == n
        &&& self.count@.len() == n
        &&& forall|j: int| 0 <= j < n ==> #[trigger] self.count@[j] <= j
    }
}

/// Rotate the prefix of length `k` of the permutation left by `d` places.
#[verifier::loop_isolation(false)]
fn rotate_prefix(perm: &mut Vec<u8>, k: usize, d: usize)
    requires
        0 < k <= old(perm)@.len(),
        old(perm)@.len() <= N_MAX,
        d < k,
    ensures
        final(perm)@ =~= rotl(old(perm)@, k as int, d as int),
{
    let ghost orig = perm@;
    let n = perm.len();
    let mut tmp: Vec<u8> = Vec::new();
    let mut j: usize = 0;
    while j < k
        invariant
            j <= k,
            0 < k <= n <= N_MAX,
            d < k,
            n == perm@.len(),
            perm@ == orig,
            tmp@.len() == j,
            forall|m: int| 0 <= m < j ==> tmp@[m] == orig[(m + d) % (k as int)],
        decreases k - j,
    {
        let src = (j + d) % k;
        tmp.push(perm[src]);
        j = j + 1;
    }
    j = 0;
    while j < k
        invariant
            j <= k,
            0 < k <= n,
            d < k,
            n == perm@.len(),
            tmp@.len() == k,
            forall|m: int| 0 <= m < k ==> tmp@[m] == orig[(m + d) % (k as int)],
            forall|m: int| 0 <= m < j ==> perm@[m] == tmp@[m],
            forall|m: int| j <= m < n ==> perm@[m] == orig[m],
        decreases k - j,
    {
        perm.set(j, tmp[j]);
        j = j + 1;
    }
    proof {
        assert forall|m: int| 0 <= m < n implies perm@[m] == rotl(
            orig,
            k as int,
            d as int,
        )[m] by {
            if m < k {
                assert(perm@[m] == tmp@[m]);
                assert(tmp@[m] == orig[(m + d) % (k as int)]);
            } else {
                assert(perm@[m] == orig[m]);
            }
        }
        assert(perm@ =~= rotl(orig, k as int, d as int));
    }
}

/// Decode a global index into the permutation state at that index, without
/// replaying any preceding permutation.
#[verifier::loop_isolation(false)]
pub fn seed(n: usize, idx: u64, table: &Vec<u64>) -> (st: PermutationState)
    requires
        is_factorial_table(table@),
        n < N_MAX,
        idx < fact(n as nat),
    ensures
        st.model() == state_at(n as nat, idx as nat),
        st.wf_exec(n as nat),
{
    let mut perm: Vec<u8> = Vec::new();
    let mut j: usize = 0;
    while j < n
        invariant
            j <= n < N_MAX,
            perm@.len() == j,
            forall|m: int| 0 <= m < j ==> perm@[m] == m as u8,
        decreases n - j,
    {
        perm.push(j as u8);
        j = j + 1;
    }
    let mut count: Vec<usize> = Vec::new();
    j = 0;
    while j < n
        invariant
            j <= n,
            count@.len() == j,
            forall|m: int| 0 <= m < j ==> count@[m] == 0usize,
        decreases n - j,
    {
        count.push(0);
        j = j + 1;
    }
    let mut st = PermutationState { perm, count };
    proof {
        assert(st.model().perm =~= initial_state(n as nat).perm);
        assert(st.model().count =~= initial_state(n as nat).count);
    }
    if n == 0 {
        return st;
    }

    let mut rem: u64 = idx;
    let mut i: usize = n - 1;
    while i >= 1
        invariant
            0 <= i <= n - 1,
            n < N_MAX,
            is_factorial_table(table@),
            st.perm@.len() == n,
            st.count@.len() == n,
            rem < fact((i + 1) as nat),
            decode_levels(st.model(), i as nat, rem as nat) == state_at(n as nat, idx as nat),
        decreases i,
    {
        let f = table[i];
        proof {
            lemma_fact_positive(i as nat);
            assert(fact((i + 1) as nat) == (i + 1) * fact(i as nat));
            vstd::arithmetic::div_mod::lemma_fundamental_div_mod(rem as int, f as int);
            assert(rem / f <= i) by (nonlinear_arith)
                requires
                    rem < (i + 1) * (f as int),
                    rem == (f as int) * (rem as int / f as int) + rem as int % f as int,
                    0 <= rem as int % f as int,
                    f >= 1,
                    i >= 1;
            vstd::arithmetic::div_mod::lemma_mod_bound(rem as int, f as int);
        }
        let d = rem / f;
        rotate_prefix(&mut st.perm, i + 1, d as usize);
        st.count.set(i, d as usize);
        rem = rem % f;
        i = i - 1;
    }
    proof {
        assert(decode_levels(st.model(), 0, rem as nat) == st.model());
        crate::perm_model::lemma_state_at_wf(n as nat, idx as nat);
    }
    st
}

/// Advance the state to its successor in the generation order: swap the
/// first two elements, then run the carry scan over the counting array.
#[verifier::loop_isolation(false)]
pub fn advance(st: &mut PermutationState)
    requires
        old(st).wf_exec(old(st).perm@.len() as nat),
        old(st).count@.len() == old(st).perm@.len(),
        2 <= old(st).perm@.len() <= N_MAX,
    ensures
        final(st).model() == step_state(old(st).model()),
        final(st).perm@.len() == old(st).perm@.len(),
        final(st).count@.len() == old(st).count@.len(),
{
    let n = st.perm.len();
    let a = st.perm[0];
    let b = st.perm[1];
    st.perm.set(0, b);
    st.perm.set(1, a);
    proof {
        assert(st.perm@ =~= rotl(old(st).perm@, 2, 1));
    }
    let mut i: usize = 1;
    while i < n
        invariant
            1 <= i <= n,
            n == st.perm@.len(),
            n == st.count@.len(),
            n <= N_MAX,
            forall|j: int| 0 <= j < n ==> #[trigger] st.count@[j] <= j,
            carry_scan(st.model(), i as nat) == step_state(old(st).model()),
        decreases n - i,
    {
        let c = st.count[i] + 1;
        if c <= i {
            st.count.set(i, c);
            return;
        }
        st.count.set(i, 0);
        if i + 2 <= n {
            rotate_prefix(&mut st.perm, i + 2, 1);
        }
        i = i + 1;
    }
}

} // verus!
