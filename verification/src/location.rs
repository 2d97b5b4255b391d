//! Where an index lies in a vector whose chunks grow by a factor of four.
#[allow(unused_imports)]
use vstd::prelude::*;
use vstd::arithmetic::power2::{lemma2_to64, lemma_pow2_unfold, pow2};
use vstd::bits::lemma_u64_shl_is_mul;
use vstd::std_specs::bits::u64_leading_zeros;

verus! {

/// How many chunks a vector has at most: together they hold every 32-bit index.
pub const CHUNKS: usize = 15;

/// How many elements all chunks hold together.
pub const CAPACITY: u64 = 11453246112;

/// The start index of each chunk.
pub const STARTS: [u32; 15] = [
    0,
    32,
    160,
    672,
    2720,
    10912,
    43680,
    174752,
    699040,
    2796192,
    11184800,
    44739232,
    178956960,
    715827872,
    2863311520,
];

/// How many elements chunk `k` holds: 32, and four times as many in each next chunk.
pub open spec fn chunk_size(k: nat) -> nat
    decreases k,
{
    if k == 0 {
        32
    } else {
        4 * chunk_size((k - 1) as nat)
    }
}

/// How many elements the chunks before chunk `k` hold together.
pub open spec fn chunk_start(k: nat) -> nat
    decreases k,
{
    if k == 0 {
        0
    } else {
        chunk_start((k - 1) as nat) + chunk_size((k - 1) as nat)
    }
}

/// Whether index `idx` lies in chunk `k`.
pub open spec fn in_chunk(idx: int, k: nat) -> bool {
    chunk_start(k) <= idx < chunk_start(k + 1)
}

/// The chunk in which an index lies.
pub open spec fn chunk_of(idx: int) -> nat {
    choose|k: nat| k < CHUNKS && in_chunk(idx, k)
}

/// The place of an index inside its chunk.
pub open spec fn offset_of(idx: int) -> int {
    idx - chunk_start(chunk_of(idx))
}

/// The sizes are the powers of two with odd exponents from five on, and three times
/// a start is 32 less than 32 times a power of four.
pub proof fn lemma_chunk_size(k: nat)
    ensures
        chunk_size(k) == 32 * pow2(2 * k),
        3 * chunk_start(k) == 32 * pow2(2 * k) - 32,
        chunk_size(k) >= 32,
    decreases k,
{
    lemma2_to64();
    if k > 0 {
        lemma_chunk_size((k - 1) as nat);
        lemma_pow2_unfold(2 * k);
        lemma_pow2_unfold((2 * k - 1) as nat);
    }
}

/// Later chunks start later.
pub proof fn lemma_chunk_start_monotone(j: nat, k: nat)
    requires
        j <= k,
    ensures
        chunk_start(j) <= chunk_start(k),
        chunk_size(j) <= chunk_size(k),
        j < k ==> chunk_start(j) + 32 <= chunk_start(k),
    decreases k,
{
    if j < k {
        lemma_chunk_start_monotone(j, (k - 1) as nat);
        lemma_chunk_size((k - 1) as nat);
    }
}

/// No index lies in two chunks.
pub proof fn lemma_in_chunk_unique(idx: int, j: nat, k: nat)
    requires
        in_chunk(idx, j),
        in_chunk(idx, k),
    ensures
        j == k,
{
    if j < k {
        lemma_chunk_start_monotone(j + 1, k);
    } else if k < j {
        lemma_chunk_start_monotone(k + 1, j);
    }
}

/// The starts of the chunks, as numbers.
pub proof fn lemma_starts()
    ensures
        forall|k: int| 0 <= k < CHUNKS ==> #[trigger] STARTS[k] == chunk_start(k as nat),
        chunk_start(14) == 2863311520,
        chunk_start(15) == 11453246112,
        chunk_size(14) == 8589934592,
{
    reveal_with_fuel(chunk_size, 16);
    reveal_with_fuel(chunk_start, 17);
    assert(chunk_start(1) == 32);
    assert(chunk_start(2) == 160);
    assert(chunk_start(3) == 672);
    assert(chunk_start(4) == 2720);
    assert(chunk_start(5) == 10912);
    assert(chunk_start(6) == 43680);
    assert(chunk_start(7) == 174752);
    assert(chunk_start(8) == 699040);
    assert(chunk_start(9) == 2796192);
    assert(chunk_start(10) == 11184800);
    assert(chunk_start(11) == 44739232);
    assert(chunk_start(12) == 178956960);
    assert(chunk_start(13) == 715827872);
    assert(chunk_start(14) == 2863311520);
    assert(chunk_start(15) == 11453246112);
}

/// The position of the highest set bit, which `leading_zeros` gives, is the integer
/// logarithm.
proof fn lemma_log2(i: u64)
    requires
        i > 0,
    ensures
        0 <= u64_leading_zeros(i) <= 63,
        pow2((63 - u64_leading_zeros(i)) as nat) <= i < 2 * pow2(
            (63 - u64_leading_zeros(i)) as nat,
        ),
    decreases i,
{
    reveal(u64_leading_zeros);
    lemma2_to64();
    if i == 1 {
        assert(u64_leading_zeros(0) == 64);
        assert(u64_leading_zeros(1) == 63);
    } else {
        lemma_log2(i / 2);
        let l = (63 - u64_leading_zeros(i / 2)) as nat;
        lemma_pow2_unfold(l + 1);
        if u64_leading_zeros(i / 2) == 0 {
            lemma_pow2_63();
            assert(false);
        }
        assert(u64_leading_zeros(i) == u64_leading_zeros(i / 2) - 1);
    }
}

proof fn lemma_pow2_63()
    ensures
        pow2(63) == 0x8000_0000_0000_0000,
{
    lemma2_to64();
    lemma_pow2_unfold(64);
}

/// The chunk of the formula is the chunk of the index.
proof fn lemma_location(idx: u32, val: u64, k: nat)
    requires
        val == 3 * idx / 32 + 1,
        pow2(2 * k) <= val < 4 * pow2(2 * k),
    ensures
        in_chunk(idx as int, k),
        k < CHUNKS,
{
    lemma_chunk_size(k);
    lemma_chunk_size(k + 1);
    lemma_pow2_unfold(2 * k + 1);
    lemma_pow2_unfold(2 * k + 2);
    if k >= CHUNKS {
        lemma_starts();
        lemma_chunk_start_monotone(15, k);
        assert(false);
    }
}

/// Every index below the capacity of all chunks lies in the chunk that `chunk_of` names.
pub proof fn lemma_chunk_of(idx: int)
    requires
        0 <= idx < CAPACITY,
    ensures
        chunk_of(idx) < CHUNKS,
        in_chunk(idx, chunk_of(idx)),
        0 <= offset_of(idx) < chunk_size(chunk_of(idx)),
{
    if idx <= u32::MAX {
        let i = idx as u32;
        let val = (3 * i / 32 + 1) as u64;
        lemma_log2(val);
        let l = (63 - u64_leading_zeros(val)) as nat;
        let k = l / 2;
        if l != 2 * k {
            lemma_pow2_unfold(l);
        }
        lemma_location(i, val, k);
    } else {
        lemma_starts();
        assert(in_chunk(idx, 14));
    }
}

/// An index lies in chunk `k` exactly when `chunk_of` says so.
pub proof fn lemma_chunk_of_is(idx: int, k: nat)
    requires
        0 <= idx < CAPACITY,
        in_chunk(idx, k),
    ensures
        chunk_of(idx) == k,
        k < CHUNKS,
{
    lemma_chunk_of(idx);
    lemma_in_chunk_unique(idx, k, chunk_of(idx));
}

/// Two indices with the same chunk and the same offset are one.
pub proof fn lemma_location_injective(i: int, j: int)
    requires
        chunk_of(i) == chunk_of(j),
        offset_of(i) == offset_of(j),
    ensures
        i == j,
{
}

/// Returns the `(chunk, offset)` of the given index.
pub fn get_location(idx: u32) -> (location: (usize, usize))
    ensures
        location.0 == chunk_of(idx as int),
        location.1 == offset_of(idx as int),
        location.0 < CHUNKS,
        in_chunk(idx as int, location.0 as nat),
        location.1 < chunk_size(location.0 as nat),
{
    let val: u64 = (3 * (idx as u64) / 32) + 1;
    proof {
        lemma_log2(val);
        lemma2_to64();
        if u64_leading_zeros(val) < 35 {
            lemma_pow2_above_28((63 - u64_leading_zeros(val)) as nat);
        }
    }
    let log2: u32 = 63 - val.leading_zeros();
    let chunk_idx: usize = (log2 / 2) as usize;
    proof {
        if log2 != 2 * chunk_idx {
            lemma_pow2_unfold(log2 as nat);
        }
        lemma_location(idx, val, chunk_idx as nat);
        lemma_chunk_of_is(idx as int, chunk_idx as nat);
        lemma_starts();
    }
    let start: u32 = STARTS[chunk_idx];
    let offset: usize = (idx - start) as usize;
    (chunk_idx, offset)
}

/// Returns the chunk in which the last of `target` elements lies.
pub fn last_chunk(target: u64) -> (chunk_idx: usize)
    requires
        0 < target <= CAPACITY,
    ensures
        chunk_idx == chunk_of(target - 1),
        chunk_idx < CHUNKS,
{
    if target - 1 <= 0xffff_ffff {
        let (chunk_idx, _) = get_location((target - 1) as u32);
        chunk_idx
    } else {
        proof {
            lemma_starts();
            lemma_chunk_of_is(target - 1, 14);
        }
        14
    }
}

proof fn lemma_pow2_above_28(e: nat)
    requires
        e > 28,
    ensures
        pow2(e) >= 0x2000_0000,
    decreases e,
{
    lemma2_to64();
    lemma_pow2_unfold(e);
    if e > 29 {
        lemma_pow2_above_28((e - 1) as nat);
    }
}

/// How many elements chunk `chunk_idx` holds.
pub fn chunk_capacity(chunk_idx: usize) -> (cap: usize)
    requires
        chunk_idx < CHUNKS,
        chunk_size(chunk_idx as nat) <= usize::MAX,
    ensures
        cap == chunk_size(chunk_idx as nat),
{
    proof {
        let k = chunk_idx as nat;
        lemma_chunk_size(k);
        lemma_starts();
        lemma_chunk_start_monotone(k, 14);
        assert(32 * pow2(2 * k) <= 0x2_0000_0000);
        lemma_u64_shl_is_mul(32, (chunk_idx * 2) as u64);
    }
    let shift: u64 = (chunk_idx * 2) as u64;
    let cap: u64 = 32u64 << shift;
    cap as usize
}

} // verus!
