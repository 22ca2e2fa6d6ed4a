//! The reduce engine: drives seeding, sequencing and flip counting over each
//! block, in parallel, and combines the per-block partial results with
//! `(sum, max)` into the final `(checksum, max_flip_count)` pair.

use vstd::prelude::*;
use rayon::iter::IntoParallelRefIterator;
use rayon::iter::ParallelIterator;
use crate::factorials::{
    fact, is_factorial_table, factorial_table, lemma_fact_monotonic, lemma_fact_15_value, N_MAX,
};
use crate::perm_model::{StateModel, state_at, step_state, state_wf, lemma_state_at_wf,
    lemma_step_state_wf, lemma_step_at};
use crate::flip_count::{flips, flip_count, lemma_flips_bound, lemma_pow2_increases, pow2};
use crate::state::{seed, advance};
use crate::blocks::{
    Block, plan_blocks, spec_block_count, spec_block_start, spec_block_len, lemma_block_in_range,
};

verus! {

/// Caller-input error: the requested size would overflow the factorial
/// table and the index arithmetic.
#[derive(Debug, Clone, Copy, PartialEq, Eq, Structural)]
pub enum ComputeError {
    InvalidSize,
}

/// The default parallelism hint: how many blocks to split the index space
/// into, when the caller has no preference.
pub const PREFERRED_BLOCK_COUNT: u64 = 12;

/// Upper bound on the flip count of any permutation of fewer than 16
/// elements; used to bound the checksum arithmetic.
pub const FLIPS_CAP: u64 = 16384;

/// Contribution of the permutation at global index `idx`: its flip count,
/// signed by the parity of `idx`, and the flip count itself for the maximum.
pub open spec fn contribution(p: Seq<u8>, idx: nat) -> (int, nat) {
    (
        if idx % 2 == 0 {
            flips(p) as int
        } else {
            -(flips(p) as int)
        },
        flips(p),
    )
}

/// The commutative, associative combination of partial results.
pub open spec fn combine(a: (int, nat), b: (int, nat)) -> (int, nat) {
    (
        a.0 + b.0,
        if a.1 >= b.1 {
            a.1
        } else {
            b.1
        },
    )
}

/// Fold the contributions of `steps` consecutive indices starting at `idx`,
/// advancing the state with the successor step between indices.
pub open spec fn run_range(s: StateModel, idx: nat, steps: nat) -> (int, nat)
    decreases steps,
{
    if steps == 0 {
        (0int, 0nat)
    } else {
        combine(contribution(s.perm, idx), run_range(step_state(s), idx + 1, (steps - 1) as nat))
    }
}

/// The partial result of the block `[start, start + size)`.
pub open spec fn block_result(n: nat, start: nat, size: nat) -> (int, nat) {
    run_range(state_at(n, start), start, size)
}

/// Combined result of the blocks from `i` on in the plan for `(n, pref)`.
pub open spec fn combined_from(n: nat, pref: nat, i: nat) -> (int, nat)
    decreases spec_block_count(n, pref) - i,
{
    if i >= spec_block_count(n, pref) {
        (0int, 0nat)
    } else {
        combine(
            block_result(n, spec_block_start(n, pref, i), spec_block_len(n, pref, i)),
            combined_from(n, pref, i + 1),
        )
    }
}

/// The final statistics over the whole index space: the fold of all `n!`
/// permutations in generation order, starting from the identity.
pub open spec fn fannkuch_spec(n: nat) -> (int, nat) {
    block_result(n, 0, fact(n))
}

/// The single trivial permutation of sizes 0 and 1 contributes nothing.
pub proof fn lemma_trivial_sizes()
    ensures
        fannkuch_spec(0) == (0int, 0nat),
        fannkuch_spec(1) == (0int, 0nat),
{
    crate::factorials::lemma_fact_small_values();
    crate::perm_model::lemma_identity_is_permutation(0);
    crate::perm_model::lemma_identity_is_permutation(1);
    crate::flip_count::lemma_flips_front_zero(state_at(0, 0).perm);
    assert(state_at(1, 0).perm == crate::perm_model::identity_perm(1));
    assert(state_at(1, 0).perm[0] == 0);
    crate::flip_count::lemma_flips_front_zero(state_at(1, 0).perm);
    assert(run_range(step_state(state_at(0, 0)), 1, 0) == (0int, 0nat));
    assert(run_range(step_state(state_at(1, 0)), 1, 0) == (0int, 0nat));
    assert(run_range(state_at(0, 0), 0, 1) == combine(
        contribution(state_at(0, 0).perm, 0),
        run_range(step_state(state_at(0, 0)), 1, 0),
    ));
    assert(run_range(state_at(1, 0), 0, 1) == combine(
        contribution(state_at(1, 0).perm, 0),
        run_range(step_state(state_at(1, 0)), 1, 0),
    ));
}

proof fn lemma_combine_assoc(a: (int, nat), b: (int, nat), c: (int, nat))
    ensures
        combine(combine(a, b), c) == combine(a, combine(b, c)),
{
}

/// Adjacent ranges of the index space fold to the fold of their union.
proof fn lemma_run_concat(n: nat, idx: nat, a: nat, b: nat)
    requires
        2 <= n <= 16,
        idx + a + b <= fact(n),
    ensures
        combine(block_result(n, idx, a), block_result(n, idx + a, b)) == block_result(
            n,
            idx,
            a + b,
        ),
    decreases a,
{
    if a == 0 {
        assert(block_result(n, idx, 0) == (0int, 0nat));
        assert(combine((0int, 0nat), block_result(n, idx, b)) == block_result(n, idx, b));
    } else if a == 1 && b == 0 {
        assert(combine(block_result(n, idx, 1), (0int, 0nat)) == block_result(n, idx, 1));
    } else {
        crate::factorials::lemma_fact_positive(n);
        assert(idx + 1 < fact(n));
        lemma_step_at(n, idx);
        let c0 = contribution(state_at(n, idx).perm, idx);
        assert(block_result(n, idx, a) == combine(
            c0,
            run_range(state_at(n, idx + 1), idx + 1, (a - 1) as nat),
        ));
        assert(block_result(n, idx, a + b) == combine(
            c0,
            run_range(state_at(n, idx + 1), idx + 1, (a + b - 1) as nat),
        ));
        lemma_run_concat(n, idx + 1, (a - 1) as nat, b);
        lemma_combine_assoc(
            c0,
            block_result(n, idx + 1, (a - 1) as nat),
            block_result(n, idx + a, b),
        );
    }
}

/// Start of the part of the index space not yet covered by blocks `0..i`.
pub open spec fn suffix_pos(n: nat, pref: nat, i: nat) -> nat {
    if i >= spec_block_count(n, pref) {
        fact(n)
    } else {
        spec_block_start(n, pref, i)
    }
}

/// The blocks from `i` on fold to the fold of the rest of the index space.
proof fn lemma_combined_suffix(n: nat, pref: nat, i: nat)
    requires
        pref >= 1,
        n <= 16,
        i <= spec_block_count(n, pref),
    ensures
        suffix_pos(n, pref, i) <= fact(n),
        combined_from(n, pref, i) == block_result(
            n,
            suffix_pos(n, pref, i),
            (fact(n) - suffix_pos(n, pref, i)) as nat,
        ),
    decreases spec_block_count(n, pref) - i,
{
    if i >= spec_block_count(n, pref) {
        assert(block_result(n, fact(n), 0) == (0int, 0nat));
    } else {
        lemma_block_in_range(n, pref, i);
        let start = spec_block_start(n, pref, i);
        let len = spec_block_len(n, pref, i);
        lemma_combined_suffix(n, pref, i + 1);
        assert(suffix_pos(n, pref, i + 1) == start + len);
        let rest = (fact(n) - start - len) as nat;
        if n >= 2 {
            lemma_run_concat(n, start, len, rest);
        } else {
            crate::factorials::lemma_fact_small_values();
            assert(fact(n) == 1);
            assert(start + len == 1 && len == 1 && start == 0 && rest == 0);
            assert(combine(block_result(n, 0, 1), (0int, 0nat)) == block_result(n, 0, 1));
        }
    }
}

/// Determinism under parallelism: the combination of the planned blocks'
/// results does not depend on the parallelism hint — it always equals the
/// fold of the whole index space.
pub proof fn lemma_parallelism_deterministic(n: nat, pref: nat)
    requires
        pref >= 1,
        n <= 16,
    ensures
        combined_from(n, pref, 0) == fannkuch_spec(n),
{
    crate::blocks::lemma_block_count_pos(n, pref);
    lemma_combined_suffix(n, pref, 0);
    assert(spec_block_start(n, pref, 0) == 0);
}

/// Flip counts of well-formed states of size `n <= 15` stay under the cap,
/// so a range result is bounded by the number of indices it covers.
proof fn lemma_run_range_bounds(s: StateModel, idx: nat, steps: nat, n: nat)
    requires
        state_wf(s, n),
        n <= 15,
        steps >= 2 ==> n >= 2,
    ensures
        -(steps * FLIPS_CAP as int) <= run_range(s, idx, steps).0 <= steps * FLIPS_CAP as int,
        run_range(s, idx, steps).1 <= FLIPS_CAP,
    decreases steps,
{
    if steps >= 1 {
        lemma_flips_bound(s.perm);
        lemma_pow2_increases(n, 15);
        assert(pow2(15) == 32768) by {
            reveal_with_fuel(pow2, 16);
        }
        assert(flips(s.perm) <= FLIPS_CAP);
        if steps == 1 {
            assert(run_range(step_state(s), idx + 1, 0) == (0int, 0nat));
        } else {
            lemma_step_state_wf(s, n);
            lemma_run_range_bounds(step_state(s), idx + 1, (steps - 1) as nat, n);
            assert(steps * FLIPS_CAP as int == (steps - 1) * FLIPS_CAP as int + FLIPS_CAP)
                by (nonlinear_arith);
        }
    }
}

/// Compute the partial result of one block: seed at its start index, then
/// count flips and advance through the block's indices in order.
#[verifier::loop_isolation(false)]
pub fn process_block(n: usize, table: &Vec<u64>, start: u64, size: u64) -> (r: (i64, u64))
    requires
        is_factorial_table(table@),
        n < N_MAX,
        1 <= size,
        start + size <= fact(n as nat),
    ensures
        (r.0 as int, r.1 as nat) == block_result(n as nat, start as nat, size as nat),
{
    proof {
        lemma_fact_15_value();
        lemma_fact_monotonic(n as nat, 15);
        lemma_state_at_wf(n as nat, start as nat);
    }
    let mut st = seed(n, start, table);
    let end = start + size;
    let mut checksum: i64 = 0;
    let mut max_flips: u64 = 0;
    let mut k: u64 = start;
    while k < end
        invariant
            start <= k <= end,
            st.wf_exec(n as nat),
            state_wf(st.model(), n as nat),
            max_flips <= FLIPS_CAP,
            -(((k - start) as int) * FLIPS_CAP as int) <= checksum as int <= ((k - start) as int)
                * FLIPS_CAP as int,
            combine(
                (checksum as int, max_flips as nat),
                run_range(st.model(), k as nat, (end - k) as nat),
            ) == block_result(n as nat, start as nat, size as nat),
        decreases end - k,
    {
        let ghost pre = (checksum as int, max_flips as nat);
        let ghost s0 = st.model();
        let ghost m = (end - k) as nat;
        let f = flip_count(&st.perm);
        proof {
            lemma_flips_bound(st.model().perm);
            lemma_pow2_increases(n as nat, 15);
            assert(pow2(15) == 32768) by {
                reveal_with_fuel(pow2, 16);
            }
            assert(f <= FLIPS_CAP);
        }
        if k % 2 == 0 {
            checksum = checksum + f as i64;
        } else {
            checksum = checksum - f as i64;
        }
        if f > max_flips {
            max_flips = f;
        }
        proof {
            assert((checksum as int, max_flips as nat) == combine(pre, contribution(s0.perm, k as nat)));
            lemma_combine_assoc(pre, contribution(s0.perm, k as nat), run_range(step_state(s0), k as nat + 1, (m - 1) as nat));
        }
        if k + 1 < end {
            proof {
                if n < 2 {
                    assert(fact(0) == 1 && fact(1) == 1);
                    assert(false);
                }
                lemma_step_state_wf(st.model(), n as nat);
            }
            advance(&mut st);
        }
        k = k + 1;
    }
    (checksum, max_flips)
}

/// Trusted parallel fan-out. Relies on rayon's `par_iter().map().collect()`
/// returning, in input order, exactly the closure's result for each block;
/// the closure only calls the verified `process_block`.
#[verifier::external_body]
fn block_results_parallel(n: usize, table: &Vec<u64>, blocks: &Vec<Block>) -> (r: Vec<(i64, u64)>)
    requires
        is_factorial_table(table@),
        n < N_MAX,
        forall|i: int|
            0 <= i < blocks@.len() ==> 1 <= #[trigger] blocks@[i].size && blocks@[i].start
                + blocks@[i].size <= fact(n as nat),
    ensures
        r@.len() == blocks@.len(),
        forall|i: int|
            #![trigger r@[i]]
            0 <= i < r@.len() ==> (r@[i].0 as int, r@[i].1 as nat) == block_result(
                n as nat,
                blocks@[i].start as nat,
                blocks@[i].size as nat,
            ),
{
    blocks.par_iter().map(|b| process_block(n, table, b.start, b.size)).collect()
}

/// Compute the fannkuch statistics for `n` with an explicit parallelism
/// hint: the checksum and maximum flip count over all `n!` permutations.
#[verifier::loop_isolation(false)]
pub fn compute_with_block_count(n: usize, preferred_block_count: u64) -> (r: Result<
    (i64, u64),
    ComputeError,
>)
    requires
        preferred_block_count >= 1,
    ensures
        n < N_MAX ==> (r matches Ok(p) && (p.0 as int, p.1 as nat) == fannkuch_spec(n as nat)),
        n >= N_MAX ==> r == Result::<(i64, u64), ComputeError>::Err(ComputeError::InvalidSize),
{
    if n >= N_MAX {
        return Err(ComputeError::InvalidSize);
    }
    let table = factorial_table();
    let blocks = plan_blocks(n, preferred_block_count, &table);
    proof {
        lemma_fact_15_value();
        lemma_fact_monotonic(n as nat, 15);
        assert forall|i: int|
            0 <= i < blocks@.len() implies 1 <= #[trigger] blocks@[i].size && blocks@[i].start
            + blocks@[i].size <= fact(n as nat) by {
            assert(blocks@[i].start == spec_block_start(
                n as nat,
                preferred_block_count as nat,
                i as nat,
            ));
            assert(blocks@[i].size == spec_block_len(
                n as nat,
                preferred_block_count as nat,
                i as nat,
            ));
            lemma_block_in_range(n as nat, preferred_block_count as nat, i as nat);
        }
    }
    let results = block_results_parallel(n, &table, &blocks);
    let mut checksum: i64 = 0;
    let mut max_flips: u64 = 0;
    let mut i: usize = 0;
    while i < results.len()
        invariant
            i <= results@.len(),
            i < results@.len() ==> -((spec_block_start(n as nat, preferred_block_count as nat, i as nat) as int) * (
            FLIPS_CAP as int)) <= checksum as int <= (spec_block_start(n as nat, preferred_block_count as nat, i as nat) as int)
                * (FLIPS_CAP as int),
            -((fact(n as nat) as int) * (FLIPS_CAP as int)) <= checksum as int <= (fact(
                n as nat,
            ) as int) * (FLIPS_CAP as int),
            max_flips <= FLIPS_CAP,
            combine((checksum as int, max_flips as nat), combined_from(n as nat, preferred_block_count as nat, i as nat))
                == combined_from(n as nat, preferred_block_count as nat, 0),
        decreases results@.len() - i,
    {
        let ghost pre = (checksum as int, max_flips as nat);
        proof {
            lemma_block_in_range(n as nat, preferred_block_count as nat, i as nat);
            lemma_state_at_wf(n as nat, spec_block_start(n as nat, preferred_block_count as nat, i as nat));
            if spec_block_len(n as nat, preferred_block_count as nat, i as nat) >= 2 && n < 2 {
                assert(fact(0) == 1 && fact(1) == 1);
                assert(false);
            }
            lemma_run_range_bounds(
                state_at(n as nat, spec_block_start(n as nat, preferred_block_count as nat, i as nat)),
                spec_block_start(n as nat, preferred_block_count as nat, i as nat),
                spec_block_len(n as nat, preferred_block_count as nat, i as nat),
                n as nat,
            );
            lemma_combine_assoc(
                pre,
                block_result(
                    n as nat,
                    spec_block_start(n as nat, preferred_block_count as nat, i as nat),
                    spec_block_len(n as nat, preferred_block_count as nat, i as nat),
                ),
                combined_from(n as nat, preferred_block_count as nat, i as nat + 1),
            );
            assert(((spec_block_start(n as nat, preferred_block_count as nat, i as nat) + spec_block_len(
                n as nat,
                preferred_block_count as nat,
                i as nat,
            )) as int) * (FLIPS_CAP as int) == (spec_block_start(n as nat, preferred_block_count as nat, i as nat) as int)
                * (FLIPS_CAP as int) + (spec_block_len(n as nat, preferred_block_count as nat, i as nat) as int) * (
            FLIPS_CAP as int)) by (nonlinear_arith);
            if i + 1 < blocks@.len() {
                lemma_block_in_range(n as nat, preferred_block_count as nat, (i + 1) as nat);
            }
        }
        let pair = results[i];
        checksum = checksum + pair.0;
        if pair.1 > max_flips {
            max_flips = pair.1;
        }
        i = i + 1;
    }
    proof {
        lemma_parallelism_deterministic(n as nat, preferred_block_count as nat);
    }
    Ok((checksum, max_flips))
}

/// Compute the fannkuch statistics for `n` with the default parallelism
/// hint.
pub fn compute(n: usize) -> (r: Result<(i64, u64), ComputeError>)
    ensures
        n < N_MAX ==> (r matches Ok(p) && (p.0 as int, p.1 as nat) == fannkuch_spec(n as nat)),
        n >= N_MAX ==> r == Result::<(i64, u64), ComputeError>::Err(ComputeError::InvalidSize),
{
    compute_with_block_count(n, PREFERRED_BLOCK_COUNT)
}

} // verus!
