use vstd::prelude::*;

verus! {

use vstd::arithmetic::power2::{
    lemma2_to64, lemma_pow2_pos, lemma_pow2_strictly_increases, lemma_pow2_unfold,
};
use vstd::arithmetic::div_mod::{
    lemma_div_is_ordered, lemma_fundamental_div_mod, lemma_fundamental_div_mod_converse,
    lemma_mod_bound,
};
use crate::ids::{
    marker_bytes, lemma_marker_bytes_increases, BlockIdIndex, BlockOffset, FileOffset,
    MAX_BLOCK_SIZE, MIN_BLOCK_SIZE, MAX_FILE_SIZE,
};

// Every file is addressed as a fixed schedule of blocks: for each size
// marker m in [0, 16) a stripe of blocks of size 2^(12 + m), and after the
// last stripe an unbounded run of maximum-sized blocks.

/// Blocks in the stripe of size marker `m`: sixteen, plus `m - 3` extra
/// repetitions for markers above 3, which keep the cumulative offset
/// aligned to the next stripe's block size.
pub open spec fn stripe_count(m: int) -> int {
    if m > 3 {
        16 + (m - 3)
    } else {
        16
    }
}

/// Blocks in the stripes of the markers before `m`.
pub open spec fn stripe_blocks_before(m: int) -> int
    decreases m,
{
    if m <= 0 {
        0
    } else {
        stripe_blocks_before(m - 1) + stripe_count(m - 1)
    }
}

/// Bytes in the stripes of the markers before `m`.
pub open spec fn stripe_bytes_before(m: int) -> int
    decreases m,
{
    if m <= 0 {
        0
    } else {
        stripe_bytes_before(m - 1) + stripe_count(m - 1) * marker_bytes(m - 1)
    }
}

/// Number of blocks in the deterministic prefix: indices 0 to 333.
pub const PREFIX_BLOCK_COUNT: u32 = 334;

/// The file offset right after the deterministic prefix, about 6.75 GiB;
/// from here on every block is 128 MiB, starting at block index 334.
pub const REPEATING_BLOCKS_START_OFFSET: u64 = 7247757312;

pub proof fn lemma_prefix_totals()
    ensures
        stripe_blocks_before(16) == PREFIX_BLOCK_COUNT as int,
        stripe_bytes_before(16) == REPEATING_BLOCKS_START_OFFSET as int,
{
    lemma2_to64();
    assert(stripe_blocks_before(0) == 0);
    assert(stripe_bytes_before(0) == 0);
    assert(stripe_blocks_before(1) == 16);
    assert(stripe_blocks_before(2) == 32);
    assert(stripe_blocks_before(3) == 48);
    assert(stripe_blocks_before(4) == 64);
    assert(stripe_blocks_before(5) == 81);
    assert(stripe_blocks_before(6) == 99);
    assert(stripe_blocks_before(7) == 118);
    assert(stripe_blocks_before(8) == 138);
    assert(stripe_blocks_before(9) == 159);
    assert(stripe_blocks_before(10) == 181);
    assert(stripe_blocks_before(11) == 204);
    assert(stripe_blocks_before(12) == 228);
    assert(stripe_blocks_before(13) == 253);
    assert(stripe_blocks_before(14) == 279);
    assert(stripe_blocks_before(15) == 306);
    assert(stripe_blocks_before(16) == 334);
    assert(stripe_bytes_before(1) == 65536);
    assert(stripe_bytes_before(2) == 196608);
    assert(stripe_bytes_before(3) == 458752);
    assert(stripe_bytes_before(4) == 983040);
    assert(stripe_bytes_before(5) == 2097152);
    assert(stripe_bytes_before(6) == 4456448);
    assert(stripe_bytes_before(7) == 9437184);
    assert(stripe_bytes_before(8) == 19922944);
    assert(stripe_bytes_before(9) == 41943040);
    assert(stripe_bytes_before(10) == 88080384);
    assert(stripe_bytes_before(11) == 184549376);
    assert(stripe_bytes_before(12) == 385875968);
    assert(stripe_bytes_before(13) == 805306368);
    assert(stripe_bytes_before(14) == 1677721600);
    assert(stripe_bytes_before(15) == 3489660928);
    assert(stripe_bytes_before(16) == 7247757312);
}

pub proof fn lemma_stripe_blocks_before_monotone(m1: int, m2: int)
    requires
        m1 <= m2,
    ensures
        stripe_blocks_before(m1) <= stripe_blocks_before(m2),
    decreases m2 - m1,
{
    if m1 < m2 {
        lemma_stripe_blocks_before_monotone(m1, m2 - 1);
    }
}

pub proof fn lemma_stripe_bytes_before_monotone(m1: int, m2: int)
    requires
        m1 <= m2,
    ensures
        stripe_bytes_before(m1) <= stripe_bytes_before(m2),
    decreases m2 - m1,
{
    if m1 < m2 {
        lemma_stripe_bytes_before_monotone(m1, m2 - 1);
        if m2 - 1 >= 0 {
            lemma_pow2_pos((12 + m2 - 1) as nat);
            assert(stripe_count(m2 - 1) * marker_bytes(m2 - 1) >= 0) by (nonlinear_arith)
                requires
                    stripe_count(m2 - 1) >= 0,
                    marker_bytes(m2 - 1) >= 0,
            ;
        }
    }
}

/// The stripe holding prefix block index `i`, searched upward from `m`.
pub open spec fn stripe_of_index_from(i: int, m: int) -> int
    decreases 15 - m,
{
    if m < 0 || m >= 15 {
        15
    } else if i < stripe_blocks_before(m + 1) {
        m
    } else {
        stripe_of_index_from(i, m + 1)
    }
}

/// The stripe holding prefix block index `i`.
pub open spec fn stripe_of_index(i: int) -> int {
    stripe_of_index_from(i, 0)
}

proof fn lemma_stripe_of_index_from(i: int, m: int)
    requires
        0 <= m <= 15,
        stripe_blocks_before(m) <= i < stripe_blocks_before(16),
    ensures
        ({
            let s = stripe_of_index_from(i, m);
            &&& m <= s < 16
            &&& stripe_blocks_before(s) <= i < stripe_blocks_before(s + 1)
        }),
    decreases 15 - m,
{
    if m >= 15 {
    } else if i < stripe_blocks_before(m + 1) {
    } else {
        lemma_stripe_of_index_from(i, m + 1);
    }
}

/// Each prefix index lies in exactly the stripe the search finds.
pub proof fn lemma_stripe_of_index(i: int)
    requires
        0 <= i < 334,
    ensures
        ({
            let s = stripe_of_index(i);
            &&& 0 <= s < 16
            &&& stripe_blocks_before(s) <= i < stripe_blocks_before(s + 1)
        }),
{
    lemma_prefix_totals();
    lemma_stripe_of_index_from(i, 0);
}

/// The search is determined by the stripe intervals: an index inside the
/// interval of marker `m` is assigned marker `m`.
pub proof fn lemma_stripe_of_index_unique(i: int, m: int)
    requires
        0 <= m < 16,
        stripe_blocks_before(m) <= i < stripe_blocks_before(m + 1),
    ensures
        stripe_of_index(i) == m,
{
    lemma_prefix_totals();
    lemma_stripe_blocks_before_monotone(0, m);
    lemma_stripe_blocks_before_monotone(m + 1, 16);
    lemma_stripe_of_index(i);
    let s = stripe_of_index(i);
    if s < m {
        lemma_stripe_blocks_before_monotone(s + 1, m);
    } else if m < s {
        lemma_stripe_blocks_before_monotone(m + 1, s);
    }
}

/// The size of block `i` of the schedule.
pub open spec fn block_index_size(i: int) -> int {
    if i < 334 {
        marker_bytes(stripe_of_index(i))
    } else {
        MAX_BLOCK_SIZE as int
    }
}

/// The file offset at which block `i` of the schedule starts.
pub open spec fn block_index_start(i: int) -> int {
    if i < 334 {
        stripe_bytes_before(stripe_of_index(i)) + (i - stripe_blocks_before(stripe_of_index(i)))
            * marker_bytes(stripe_of_index(i))
    } else {
        REPEATING_BLOCKS_START_OFFSET as int + (i - 334) * (MAX_BLOCK_SIZE as int)
    }
}

/// Block `i` of the schedule covers offset `o`, at in-block position `p`.
pub open spec fn schedule_covers(o: int, i: int, p: int) -> bool {
    &&& block_index_start(i) <= o < block_index_start(i) + block_index_size(i)
    &&& p == o - block_index_start(i)
}

/// Every block of the schedule holds at least two bytes (in fact at least
/// 4 KiB), so in-block positions 0 and 1 both exist.
pub proof fn lemma_block_index_size_large(i: int)
    requires
        i >= 0,
    ensures
        block_index_size(i) >= MIN_BLOCK_SIZE as int,
{
    if i < 334 {
        lemma_stripe_of_index(i);
        let s = stripe_of_index(i);
        if s > 0 {
            lemma_marker_bytes_increases(0, s);
        }
        lemma2_to64();
    }
}

/// Consecutive blocks of the schedule are adjacent: block `i + 1` starts
/// exactly where block `i` ends.
pub proof fn lemma_block_start_step(i: int)
    requires
        i >= 0,
    ensures
        block_index_start(i + 1) == block_index_start(i) + block_index_size(i),
    decreases 0int,
{
    lemma_prefix_totals();
    if i + 1 < 334 {
        lemma_stripe_of_index(i);
        let m = stripe_of_index(i);
        if i + 1 < stripe_blocks_before(m + 1) {
            lemma_stripe_of_index_unique(i + 1, m);
            assert((i + 1 - stripe_blocks_before(m)) * marker_bytes(m) == (i
                - stripe_blocks_before(m)) * marker_bytes(m) + marker_bytes(m)) by (nonlinear_arith);
        } else {
            // i is the last block of stripe m; i + 1 opens stripe m + 1
            assert(i + 1 == stripe_blocks_before(m + 1));
            assert(m + 1 < 16) by {
                lemma_stripe_blocks_before_monotone(m + 1, 16);
                if m + 1 >= 16 {
                    assert(stripe_blocks_before(m + 1) >= stripe_blocks_before(16));
                }
            }
            lemma_stripe_of_index_unique(i + 1, m + 1);
            assert(stripe_blocks_before(m + 2) == stripe_blocks_before(m + 1) + stripe_count(m + 1));
            assert((i + 1 - stripe_blocks_before(m + 1)) * marker_bytes(m + 1) == 0)
                by (nonlinear_arith)
                requires
                    i + 1 == stripe_blocks_before(m + 1),
            ;
            assert(i - stripe_blocks_before(m) == stripe_count(m) - 1);
            assert(stripe_bytes_before(m + 1) == stripe_bytes_before(m) + stripe_count(m)
                * marker_bytes(m));
            assert((stripe_count(m) - 1) * marker_bytes(m) + marker_bytes(m) == stripe_count(m)
                * marker_bytes(m)) by (nonlinear_arith);
        }
    } else if i < 334 {
        // i == 333, the last prefix block, of stripe 15
        assert(i == 333);
        lemma_stripe_of_index(i);
        let m = stripe_of_index(i);
        assert(m == 15) by {
            if m < 15 {
                lemma_stripe_blocks_before_monotone(m + 1, 15);
                assert(stripe_blocks_before(16) == stripe_blocks_before(15) + stripe_count(15));
            }
        }
        assert(i - stripe_blocks_before(15) == stripe_count(15) - 1);
        assert(stripe_bytes_before(16) == stripe_bytes_before(15) + stripe_count(15)
            * marker_bytes(15));
        assert((stripe_count(15) - 1) * marker_bytes(15) + marker_bytes(15) == stripe_count(15)
            * marker_bytes(15)) by (nonlinear_arith);
        lemma2_to64();
        assert(marker_bytes(15) == MAX_BLOCK_SIZE as int);
    } else {
        // both in the repeating tail; multiplication by a constant is linear
    }
}

pub proof fn lemma_block_start_monotone(i: int, j: int)
    requires
        0 <= i <= j,
    ensures
        block_index_start(i) <= block_index_start(j),
    decreases j - i,
{
    if i < j {
        lemma_block_start_step(j - 1);
        lemma_block_index_size_large(j - 1);
        lemma_block_start_monotone(i, j - 1);
    }
}

/// The schedule's blocks are disjoint: an offset is covered by exactly one
/// block, at exactly one in-block position.
pub proof fn lemma_schedule_cover_unique(o: int, i: int, p: int, j: int, q: int)
    requires
        i >= 0,
        j >= 0,
        schedule_covers(o, i, p),
        schedule_covers(o, j, q),
    ensures
        i == j,
        p == q,
{
    if i < j {
        lemma_block_start_step(i);
        lemma_block_start_monotone(i + 1, j);
    } else if j < i {
        lemma_block_start_step(j);
        lemma_block_start_monotone(j + 1, i);
    }
}

/// At every block boundary of the schedule, translation is exact: the
/// boundary offset lies at position 0 of block `i`, the offset one before
/// it at the last position of block `i - 1`, and the offset one after it
/// at position 1 of block `i`.
pub proof fn lemma_boundary_translation(i: int)
    requires
        i >= 1,
    ensures
        schedule_covers(block_index_start(i), i, 0),
        schedule_covers(block_index_start(i) - 1, i - 1, block_index_size(i - 1) - 1),
        schedule_covers(block_index_start(i) + 1, i, 1),
{
    lemma_block_start_step(i - 1);
    lemma_block_index_size_large(i - 1);
    lemma_block_index_size_large(i);
}

/// Locates a file offset in the block schedule: returns the index of the
/// covering block and the position inside it.
pub fn translate_file_offset(offset: FileOffset) -> (r: (BlockIdIndex, BlockOffset))
    requires
        offset.wf(),
    ensures
        schedule_covers(offset.spec_value() as int, r.0.spec_value() as int, r.1.spec_value() as int),
{
    let o: u64 = offset.value();
    proof {
        lemma_prefix_totals();
    }
    if o < REPEATING_BLOCKS_START_OFFSET {
        let mut m: u32 = 0;
        let mut size: u32 = MIN_BLOCK_SIZE;
        let mut acc_bytes: u64 = 0;
        let mut acc_blocks: u32 = 0;
        proof {
            lemma2_to64();
        }
        while m < 16
            invariant
                0 <= m <= 16,
                m < 16 ==> size as int == marker_bytes(m as int),
                acc_bytes as int == stripe_bytes_before(m as int),
                acc_blocks as int == stripe_blocks_before(m as int),
                acc_bytes <= o < REPEATING_BLOCKS_START_OFFSET,
                stripe_blocks_before(16) == PREFIX_BLOCK_COUNT as int,
                stripe_bytes_before(16) == REPEATING_BLOCKS_START_OFFSET as int,
                o == offset.spec_value(),
            decreases 16 - m,
        {
            let count: u32 = if m > 3 { 13 + m } else { 16 };
            let ghost mi = m as int;
            proof {
                assert(count as int == stripe_count(mi));
                lemma_pow2_pos((12 + mi) as nat);
                assert(stripe_bytes_before(mi + 1) == stripe_bytes_before(mi) + stripe_count(mi)
                    * marker_bytes(mi));
                lemma_stripe_bytes_before_monotone(mi + 1, 16);
                assert(stripe_count(mi) * marker_bytes(mi) == count as int * size as int);
            }
            let stripe_total: u64 = (count as u64) * (size as u64);
            if o < acc_bytes + stripe_total {
                let d: u64 = o - acc_bytes;
                let q: u64 = d / (size as u64);
                let p: u64 = d % (size as u64);
                proof {
                    lemma_fundamental_div_mod(d as int, size as int);
                    lemma_mod_bound(d as int, size as int);
                    assert((q as int) < (count as int)) by (nonlinear_arith)
                        requires
                            size as int * (q as int) + p as int == d as int,
                            (d as int) < (count as int) * (size as int),
                            0 <= (p as int) < (size as int),
                            q as int >= 0,
                            size as int > 0,
                    ;
                    lemma_stripe_blocks_before_monotone(mi + 1, 16);
                    assert(stripe_blocks_before(mi + 1) == stripe_blocks_before(mi) + stripe_count(
                        mi,
                    ));
                    let idx = acc_blocks as int + q as int;
                    lemma_stripe_of_index_unique(idx, mi);
                    assert(block_index_start(idx) == stripe_bytes_before(mi) + (q as int)
                        * marker_bytes(mi));
                    assert((q as int) * (size as int) == size as int * (q as int))
                        by (nonlinear_arith);
                    // the in-block position is below the largest block size
                    if mi < 15 {
                        lemma_marker_bytes_increases(mi, 15);
                    }
                    lemma2_to64();
                    assert(marker_bytes(15) == MAX_BLOCK_SIZE as int);
                }
                let idx: u32 = acc_blocks + (q as u32);
                return (BlockIdIndex::new(idx), BlockOffset::from_valid(p as u32));
            }
            proof {
                // the last stripe reaches the end of the prefix, so a
                // covering stripe exists before m runs out
                assert(mi < 15) by {
                    if mi == 15 {
                        assert(stripe_bytes_before(16) == stripe_bytes_before(15) + stripe_count(15)
                            * marker_bytes(15));
                    }
                }
                lemma_marker_bytes_increases(mi, 15);
                lemma2_to64();
                lemma_pow2_unfold((12 + mi + 1) as nat);
                lemma_stripe_blocks_before_monotone(mi + 1, 16);
                assert(stripe_blocks_before(mi + 1) == stripe_blocks_before(mi) + stripe_count(mi));
            }
            acc_bytes = acc_bytes + stripe_total;
            acc_blocks = acc_blocks + count;
            size = size * 2;
            m = m + 1;
        }
        // unreachable: the prefix stripes cover every offset below the tail
        proof {
            assert(false);
        }
        (BlockIdIndex::new(0), BlockOffset::from_valid(0))
    } else {
        let rem: u64 = o - REPEATING_BLOCKS_START_OFFSET;
        let q: u64 = rem / (MAX_BLOCK_SIZE as u64);
        let p: u64 = rem % (MAX_BLOCK_SIZE as u64);
        proof {
            lemma_fundamental_div_mod(rem as int, MAX_BLOCK_SIZE as int);
            lemma_mod_bound(rem as int, MAX_BLOCK_SIZE as int);
            // the largest admissible offset lands exactly on index u32::MAX
            lemma_div_is_ordered(
                rem as int,
                MAX_FILE_SIZE as int - 1 - REPEATING_BLOCKS_START_OFFSET as int,
                MAX_BLOCK_SIZE as int,
            );
            lemma_fundamental_div_mod_converse(
                MAX_FILE_SIZE as int - 1 - REPEATING_BLOCKS_START_OFFSET as int,
                MAX_BLOCK_SIZE as int,
                4294966961int,
                134217727int,
            );
            assert(q as int <= 4294966961);
        }
        let idx: u32 = PREFIX_BLOCK_COUNT + (q as u32);
        return (BlockIdIndex::new(idx), BlockOffset::from_valid(p as u32));
    }
}

} // verus!
