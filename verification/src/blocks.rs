//! Partitioning of the index space `[0, n!)` into contiguous blocks for
//! parallel processing. The preferred block count is a hint: tiny index
//! spaces collapse to a single block, and the last block absorbs the
//! remainder of the integer division so that the blocks tile `[0, n!)`
//! exactly.

use vstd::prelude::*;
use crate::factorials::{fact, is_factorial_table, lemma_fact_positive, N_MAX};

verus! {

/// A half-open range `[start, start + size)` of global permutation indices,
/// processed by exactly one worker.
#[derive(Clone, Copy)]
pub struct Block {
    pub start: u64,
    pub size: u64,
}

/// Size of every block but possibly the last.
pub open spec fn spec_block_size(n: nat, pref: nat) -> nat {
    if fact(n) / pref < 1 {
        1
    } else {
        fact(n) / pref
    }
}

pub open spec fn spec_block_count(n: nat, pref: nat) -> nat {
    fact(n) / spec_block_size(n, pref)
}

pub open spec fn spec_block_start(n: nat, pref: nat, i: nat) -> nat {
    i * spec_block_size(n, pref)
}

/// Size of block `i`: the common size, except that the last block runs to
/// the end of the index space.
pub open spec fn spec_block_len(n: nat, pref: nat, i: nat) -> nat {
    if i + 1 == spec_block_count(n, pref) {
        (fact(n) - spec_block_start(n, pref, i)) as nat
    } else {
        spec_block_size(n, pref)
    }
}

/// Block `i` lies inside `[0, n!)`, holds at least one index, and ends
/// where block `i+1` starts (or at `n!` for the last block).
pub proof fn lemma_block_in_range(n: nat, pref: nat, i: nat)
    requires
        pref >= 1,
        i < spec_block_count(n, pref),
    ensures
        spec_block_len(n, pref, i) >= 1,
        spec_block_start(n, pref, i) + spec_block_len(n, pref, i) <= fact(n),
        i + 1 < spec_block_count(n, pref) ==> spec_block_start(n, pref, i) + spec_block_len(
            n,
            pref,
            i,
        ) == spec_block_start(n, pref, i + 1),
        i + 1 == spec_block_count(n, pref) ==> spec_block_start(n, pref, i) + spec_block_len(
            n,
            pref,
            i,
        ) == fact(n),
        spec_block_start(n, pref, i) == i * spec_block_size(n, pref),
{
    let bs = spec_block_size(n, pref);
    let bc = spec_block_count(n, pref);
    lemma_fact_positive(n);
    assert(fact(n) / pref >= 0) by (nonlinear_arith)
        requires pref >= 1 && fact(n) >= 1;
    assert(bs >= 1);
    vstd::arithmetic::div_mod::lemma_fundamental_div_mod(fact(n) as int, bs as int);
    assert(bc * bs <= fact(n)) by (nonlinear_arith)
        requires
            fact(n) as int == bs * ((fact(n) as int) / (bs as int)) + (fact(n) as int) % (
            bs as int),
            0 <= (fact(n) as int) % (bs as int),
            bc == (fact(n) as int) / (bs as int);
    assert((i + 1) * bs == i * bs + bs) by (nonlinear_arith);
    assert((i + 1) * bs <= bc * bs) by (nonlinear_arith)
        requires i + 1 <= bc && bs >= 1;
}

/// Number of blocks: at least one.
pub proof fn lemma_block_count_pos(n: nat, pref: nat)
    requires
        pref >= 1,
    ensures
        spec_block_count(n, pref) >= 1,
{
    let bs = spec_block_size(n, pref);
    let bc = spec_block_count(n, pref);
    lemma_fact_positive(n);
    assert(fact(n) / pref >= 0) by (nonlinear_arith)
        requires pref >= 1 && fact(n) >= 1;
    assert(fact(n) / pref <= fact(n)) by (nonlinear_arith)
        requires pref >= 1 && fact(n) >= 1;
    vstd::arithmetic::div_mod::lemma_fundamental_div_mod(fact(n) as int, bs as int);
    assert(bc >= 1) by (nonlinear_arith)
        requires
            fact(n) as int == bs * ((fact(n) as int) / (bs as int)) + (fact(n) as int) % (
            bs as int),
            (fact(n) as int) % (bs as int) < bs,
            1 <= bs,
            bs <= fact(n),
            bc == (fact(n) as int) / (bs as int);
}

/// The planned blocks tile `[0, n!)` exactly: the first starts at 0, each
/// ends where the next starts, the last ends at `n!`, and every block holds
/// at least one index — no gaps, no overlaps.
pub proof fn lemma_blocks_tile(n: nat, pref: nat)
    requires
        pref >= 1,
    ensures
        spec_block_count(n, pref) >= 1,
        spec_block_start(n, pref, 0) == 0,
        forall|i: nat|
            i + 1 < spec_block_count(n, pref) ==> #[trigger] spec_block_start(n, pref, i)
                + spec_block_len(n, pref, i) == spec_block_start(n, pref, i + 1),
        forall|i: nat|
            i + 1 == spec_block_count(n, pref) ==> #[trigger] spec_block_start(n, pref, i)
                + spec_block_len(n, pref, i) == fact(n),
        forall|i: nat| i < spec_block_count(n, pref) ==> #[trigger] spec_block_len(n, pref, i) >= 1,
{
    lemma_block_count_pos(n, pref);
    assert forall|i: nat|
        i + 1 < spec_block_count(n, pref) implies #[trigger] spec_block_start(n, pref, i)
        + spec_block_len(n, pref, i) == spec_block_start(n, pref, i + 1) by {
        lemma_block_in_range(n, pref, i);
    }
    assert forall|i: nat|
        i + 1 == spec_block_count(n, pref) implies #[trigger] spec_block_start(n, pref, i)
        + spec_block_len(n, pref, i) == fact(n) by {
        lemma_block_in_range(n, pref, i);
    }
    assert forall|i: nat| i < spec_block_count(n, pref) implies #[trigger] spec_block_len(
        n,
        pref,
        i,
    ) >= 1 by {
        lemma_block_in_range(n, pref, i);
    }
}

/// The planned vector matches the block plan for `(n, pref)` exactly.
pub open spec fn blocks_match(bl: Seq<Block>, n: nat, pref: nat) -> bool {
    &&& bl.len() == spec_block_count(n, pref)
    &&& forall|i: int|
        0 <= i < bl.len() ==> #[trigger] bl[i].start == spec_block_start(n, pref, i as nat)
            && bl[i].size == spec_block_len(n, pref, i as nat)
}

/// Plan the blocks for size `n` with a preferred block count.
#[verifier::rlimit(60)]
#[verifier::loop_isolation(false)]
pub fn plan_blocks(n: usize, preferred_block_count: u64, table: &Vec<u64>) -> (blocks: Vec<Block>)
    requires
        is_factorial_table(table@),
        n < N_MAX,
        preferred_block_count >= 1,
    ensures
        blocks_match(blocks@, n as nat, preferred_block_count as nat),
{
    let total = table[n];
    let mut block_size = total / preferred_block_count;
    if block_size == 0 {
        block_size = 1;
    }
    let block_count = total / block_size;
    proof {
        assert(block_size == spec_block_size(n as nat, preferred_block_count as nat));
        assert(block_count == spec_block_count(n as nat, preferred_block_count as nat));
    }
    let mut blocks: Vec<Block> = Vec::new();
    let mut i: u64 = 0;
    while i < block_count
        invariant
            i <= block_count,
            block_size == spec_block_size(n as nat, preferred_block_count as nat),
            block_count == spec_block_count(n as nat, preferred_block_count as nat),
            total == fact(n as nat),
            blocks@.len() == i,
            forall|j: int|
                0 <= j < i ==> #[trigger] blocks@[j].start == spec_block_start(n as nat, preferred_block_count as nat, j as nat)
                    && blocks@[j].size == spec_block_len(n as nat, preferred_block_count as nat, j as nat),
        decreases block_count - i,
    {
        proof {
            lemma_block_in_range(n as nat, preferred_block_count as nat, i as nat);
        }
        let start = i * block_size;
        let size = if i + 1 == block_count {
            total - start
        } else {
            block_size
        };
        blocks.push(Block { start, size });
        i = i + 1;
    }
    blocks
}

} // verus!
