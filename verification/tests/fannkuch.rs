use rust_algorithms::blocks::plan_blocks;
use rust_algorithms::engine::{compute, compute_with_block_count, ComputeError};
use rust_algorithms::factorials::factorial_table;
use rust_algorithms::flip_count::flip_count;
use rust_algorithms::state::{advance, seed};

#[test]
fn identity_needs_no_flips() {
    for n in 0..16u8 {
        let perm: Vec<u8> = (0..n).collect();
        assert_eq!(flip_count(&perm), 0);
    }
}

#[test]
fn flip_counts_of_single_permutations() {
    assert_eq!(flip_count(&vec![1, 0, 2]), 1);
    assert_eq!(flip_count(&vec![2, 1, 0]), 1);
    assert_eq!(flip_count(&vec![1, 2, 0]), 2);
    assert_eq!(flip_count(&vec![2, 0, 1]), 2);
    // The known worst case for size 3 is 2 flips.
    assert_eq!(flip_count(&vec![0, 2, 1]), 0);
}

#[test]
fn brute_force_size_three() {
    let perms: [[u8; 3]; 6] = [
        [0, 1, 2],
        [0, 2, 1],
        [1, 0, 2],
        [1, 2, 0],
        [2, 0, 1],
        [2, 1, 0],
    ];
    let mut counts: Vec<u64> = perms.iter().map(|p| flip_count(&p.to_vec())).collect();
    counts.sort();
    assert_eq!(counts, vec![0, 0, 1, 1, 2, 2]);
    assert_eq!(*counts.iter().max().unwrap(), 2);
}

#[test]
fn trivial_sizes_contribute_nothing() {
    assert_eq!(compute(0), Ok((0, 0)));
    assert_eq!(compute(1), Ok((0, 0)));
}

#[test]
fn reference_result_for_size_seven() {
    assert_eq!(compute(7), Ok((228, 16)));
}

#[test]
fn known_small_results() {
    // For sizes 2 and 3 the full enumeration is small enough to do by hand:
    // order [01], [10] gives 0 - 1; order [012], [102], [120], [210],
    // [201], [021] gives 0 - 1 + 2 - 1 + 2 - 0.
    assert_eq!(compute(2), Ok((-1, 1)));
    assert_eq!(compute(3), Ok((2, 2)));
    // The known maximal pancake flip counts for sizes 4, 5 and 6.
    assert_eq!(compute(4).unwrap().1, 4);
    assert_eq!(compute(5).unwrap().1, 7);
    assert_eq!(compute(6).unwrap().1, 10);
}

#[test]
fn deterministic_under_parallelism() {
    let reference = compute_with_block_count(7, 12).unwrap();
    for pref in [1u64, 4, 12, 5040] {
        assert_eq!(compute_with_block_count(7, pref).unwrap(), reference);
    }
}

#[test]
fn rejects_sizes_at_or_above_the_bound() {
    assert_eq!(compute(16), Err(ComputeError::InvalidSize));
    assert_eq!(compute(17), Err(ComputeError::InvalidSize));
    assert_eq!(compute(1000), Err(ComputeError::InvalidSize));
    assert_eq!(compute_with_block_count(16, 1), Err(ComputeError::InvalidSize));
}

#[test]
fn seeding_matches_sequencing() {
    let table = factorial_table();
    let n = 4usize;
    let mut walked = seed(n, 0, &table);
    for idx in 0..24u64 {
        let seeded = seed(n, idx, &table);
        assert_eq!(seeded.perm, walked.perm);
        assert_eq!(seeded.count, walked.count);
        if idx + 1 < 24 {
            advance(&mut walked);
        }
    }
}

#[test]
fn seeded_permutation_is_a_permutation() {
    let table = factorial_table();
    for idx in [0u64, 1, 719, 360, 42] {
        let st = seed(6, idx, &table);
        let mut seen = [false; 6];
        for &v in st.perm.iter() {
            assert!((v as usize) < 6);
            assert!(!seen[v as usize]);
            seen[v as usize] = true;
        }
    }
}

#[test]
fn blocks_tile_the_index_space() {
    let table = factorial_table();
    for (n, pref) in [(7usize, 12u64), (7, 1), (7, 5040), (3, 12), (0, 12), (1, 3), (5, 7)] {
        let blocks = plan_blocks(n, pref, &table);
        assert!(!blocks.is_empty());
        assert_eq!(blocks[0].start, 0);
        let mut next_expected = 0u64;
        for b in blocks.iter() {
            assert_eq!(b.start, next_expected);
            assert!(b.size >= 1);
            next_expected = b.start + b.size;
        }
        assert_eq!(next_expected, table[n]);
    }
}

#[test]
fn tiny_spaces_use_unit_blocks() {
    // When n! does not exceed the preferred block count, the block size is
    // clamped to one index per block.
    let table = factorial_table();
    let blocks = plan_blocks(3, 12, &table);
    assert_eq!(blocks.len(), 6);
    for (i, b) in blocks.iter().enumerate() {
        assert_eq!(b.start, i as u64);
        assert_eq!(b.size, 1);
    }
    // A space larger than the hint is split into exactly that many blocks.
    let blocks = plan_blocks(7, 12, &table);
    assert_eq!(blocks.len(), 12);
}
