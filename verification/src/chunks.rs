//! Which chunks of a vector are allocated, and how many elements they hold.
#[allow(unused_imports)]
use crate::location::{
    chunk_of, chunk_start, in_chunk, lemma_chunk_of, lemma_chunk_of_is, lemma_chunk_start_monotone,
    lemma_starts, CAPACITY, CHUNKS,
};
#[allow(unused_imports)]
use vstd::prelude::*;

verus! {

/// How many chunks there are before the first missing one.
pub open spec fn leading(present: Seq<bool>) -> nat
    decreases present.len(),
{
    if present.len() == 0 || !present[0] {
        0
    } else {
        1 + leading(present.subrange(1, present.len() as int))
    }
}

/// How many elements the chunks before the first missing one hold.
pub open spec fn capacity_of(present: Seq<bool>) -> nat {
    chunk_start(leading(present))
}

/// Chunks are allocated in order.
#[verifier::opaque]
pub open spec fn prefix_closed(present: Seq<bool>) -> bool {
    forall|j: int, k: int| 0 <= j < k < present.len() && present[k] ==> present[j]
}

/// The chunks of `len` elements are allocated, and no chunk before one that is there is missing.
pub open spec fn in_order(present: Seq<bool>, len: nat) -> bool {
    &&& present.len() == CHUNKS
    &&& prefix_closed(present)
    &&& forall|i: int| 0 <= i < len ==> present[#[trigger] chunk_of(i) as int]
}

/// The chunks that are there once chunks `0..=last` were added.
pub open spec fn with_chunks(present: Seq<bool>, last: nat) -> Seq<bool> {
    Seq::new(present.len(), |k: int| present[k] || k <= last)
}

/// The largest number of elements a vector can have: the last index is kept out, and the
/// capacity must be a `usize`.
pub open spec fn max_len() -> nat {
    if usize::MAX >= 11453246112 {
        0xffff_ffff
    } else {
        2863311520
    }
}

/// The largest capacity a vector can have: that of all chunks, or of all but the last where it would
/// not be a `usize`.
pub open spec fn max_capacity() -> nat {
    if usize::MAX >= 11453246112 {
        11453246112
    } else {
        2863311520
    }
}

/// Whether `additional` elements can be reserved behind `len` others.
pub open spec fn reservable(len: nat, additional: nat) -> bool {
    len + additional <= max_capacity()
}

/// The chunks that are there once `additional` elements were reserved behind `len` others.
pub open spec fn reserved(present: Seq<bool>, len: nat, additional: nat) -> Seq<bool> {
    if len + additional == 0 {
        present
    } else {
        with_chunks(present, chunk_of(len + additional - 1))
    }
}

/// The smallest capacity that is enough for `n` elements: that of the chunks up to the one in which
/// the last of them lies.
pub open spec fn least_capacity(n: nat) -> nat {
    if n == 0 {
        0
    } else {
        chunk_start((chunk_of(n - 1) + 1) as nat)
    }
}

/// Where `in_use` of `len` slots cannot be had again, the number of slots for which there has to be
/// room so that `additional` more elements fit.
pub open spec fn slots_needed(len: nat, in_use: nat, additional: nat) -> nat {
    if in_use + additional >= len {
        in_use + additional
    } else {
        len
    }
}

/// Returns how many elements a vector can have.
pub fn len_limit() -> (limit: u32)
    ensures
        limit == max_len(),
{
    if usize::MAX as u64 >= CAPACITY {
        0xffff_ffff
    } else {
        2863311520
    }
}

/// Returns the largest capacity that a vector can have.
pub fn capacity_limit() -> (limit: u64)
    ensures
        limit == max_capacity(),
{
    if usize::MAX as u64 >= CAPACITY {
        CAPACITY
    } else {
        2863311520
    }
}

/// Returns the number of slots for which there has to be room so that `additional` more elements fit,
/// unless no vector has so much room.
pub fn reservation_target(len: u32, in_use: usize, additional: usize) -> (target: Option<u64>)
    ensures
        target == (if slots_needed(len as nat, in_use as nat, additional as nat)
            <= max_capacity() {
            Some(slots_needed(len as nat, in_use as nat, additional as nat) as u64)
        } else {
            None
        }),
        target is Some == (len <= max_capacity() && in_use + additional <= max_capacity()),
        target matches Some(t) ==> t >= len && t >= in_use + additional && (t == len || t == in_use
            + additional),
{
    let needed: u64 = match (in_use as u64).checked_add(additional as u64) {
        Some(needed) => needed,
        None => {
            return None;
        },
    };
    let target: u64 = if needed >= len as u64 {
        needed
    } else {
        len as u64
    };
    if target <= capacity_limit() {
        Some(target)
    } else {
        None
    }
}

/// What a reservation asks for is enough for the slots that there are and for the elements that are to
/// fit, and is no more than one of the two.
pub proof fn lemma_slots_needed(len: nat, in_use: nat, additional: nat)
    ensures
        slots_needed(len, in_use, additional) >= len,
        slots_needed(len, in_use, additional) >= in_use + additional,
        slots_needed(len, in_use, additional) == len || slots_needed(len, in_use, additional)
            == in_use + additional,
{
}

/// The largest capacity is that of as many chunks as a `usize` can count the elements of.
pub proof fn lemma_max_capacity()
    ensures
        max_capacity() <= usize::MAX,
        exists|k: nat| k <= CHUNKS && max_capacity() == #[trigger] chunk_start(k),
        forall|k: nat|
            k <= CHUNKS && #[trigger] chunk_start(k) <= usize::MAX ==> chunk_start(k)
                <= max_capacity(),
{
    lemma_starts();
    if usize::MAX >= 11453246112 {
        assert(max_capacity() == chunk_start(15));
    } else {
        assert(max_capacity() == chunk_start(14));
    }
    assert forall|k: nat| k <= CHUNKS && #[trigger] chunk_start(k) <= usize::MAX implies chunk_start(
        k,
    ) <= max_capacity() by {
        lemma_chunk_start_monotone(k, 15);
        if k < 15 {
            lemma_chunk_start_monotone(k, 14);
        }
    }
}

/// A vector is full when its capacity is used up, or when all indices but the last are: that one ends the
/// free list.
pub proof fn lemma_max_len()
    ensures
        max_len() <= max_capacity(),
        max_len() <= u32::MAX,
        max_len() == max_capacity() || max_len() == u32::MAX,
{
}

/// Counting the chunks up to the first missing one.
pub proof fn lemma_leading(present: Seq<bool>, n: nat)
    requires
        n <= present.len(),
        forall|k: int| 0 <= k < n ==> #[trigger] present[k],
        n < present.len() ==> !present[n as int],
    ensures
        leading(present) == n,
    decreases n,
{
    if n > 0 {
        let rest = present.subrange(1, present.len() as int);
        assert forall|k: int| 0 <= k < n - 1 implies #[trigger] rest[k] by {
            assert(rest[k] == present[k + 1]);
        }
        lemma_leading(rest, (n - 1) as nat);
        assert(present[0]);
    }
}

/// The chunks that are counted are there, and the next one is not.
pub proof fn lemma_leading_present(present: Seq<bool>)
    ensures
        leading(present) <= present.len(),
        forall|k: int| 0 <= k < leading(present) ==> #[trigger] present[k],
        leading(present) < present.len() ==> !present[leading(present) as int],
    decreases present.len(),
{
    if present.len() > 0 && present[0] {
        let rest = present.subrange(1, present.len() as int);
        lemma_leading_present(rest);
        assert forall|k: int| 0 <= k < leading(present) implies #[trigger] present[k] by {
            if k > 0 {
                assert(rest[k - 1]);
            }
        }
    }
}

/// Counting the chunks of an ordered allocation that has chunk `c`.
pub proof fn lemma_leading_prefix(present: Seq<bool>, c: int)
    requires
        prefix_closed(present),
        0 <= c < present.len(),
        present[c],
    ensures
        leading(present) > c,
        leading(present) <= present.len(),
{
    reveal(prefix_closed);
    lemma_leading_present(present);
}

/// The chunks up to that of a usable index have a capacity that fits a `usize`.
pub proof fn lemma_chunk_addressable(idx: int)
    requires
        0 <= idx < max_capacity(),
    ensures
        chunk_of(idx) < CHUNKS,
        chunk_start((chunk_of(idx) + 1) as nat) <= usize::MAX,
{
    lemma_chunk_of(idx);
    lemma_starts();
    if usize::MAX >= 11453246112 {
        lemma_chunk_start_monotone((chunk_of(idx) + 1) as nat, 15);
    } else {
        if chunk_of(idx) >= 14 {
            lemma_chunk_start_monotone(14, chunk_of(idx));
        }
        lemma_chunk_start_monotone((chunk_of(idx) + 1) as nat, 14);
    }
}

/// With the chunk of one more index, the chunks of all indices up to it are there, in order.
#[verifier::rlimit(50)]
pub proof fn lemma_covering_update(present: Seq<bool>, n: int)
    requires
        0 <= n <= u32::MAX,
        in_order(present, n as nat),
    ensures
        in_order(present.update(chunk_of(n) as int, true), (n + 1) as nat),
{
    let c = chunk_of(n) as int;
    lemma_chunk_of(n);
    assert forall|i: int| 0 <= i <= n implies present.update(c, true)[#[trigger] chunk_of(
        i,
    ) as int] by {
        lemma_chunk_of(i);
    }
    assert forall|j: int| 0 <= j < c implies #[trigger] present[j] by {
        lemma_lower_chunk(n, j as nat);
        assert(present[chunk_of(chunk_start(j as nat) as int) as int]);
    }
    lemma_prefix_update(present, c);
}

/// Adding a chunk behind present ones keeps the order.
proof fn lemma_prefix_update(present: Seq<bool>, c: int)
    requires
        prefix_closed(present),
        0 <= c < present.len(),
        forall|j: int| 0 <= j < c ==> #[trigger] present[j],
    ensures
        prefix_closed(present.update(c, true)),
{
    reveal(prefix_closed);
}

/// A chunk before that of an index starts at a smaller index.
proof fn lemma_lower_chunk(n: int, j: nat)
    requires
        0 <= n <= u32::MAX,
        j < chunk_of(n),
    ensures
        chunk_start(j) < n,
        chunk_of(chunk_start(j) as int) == j,
{
    lemma_chunk_of(n);
    lemma_chunk_start_monotone(j, j + 1);
    lemma_chunk_start_monotone(j + 1, chunk_of(n));
    assert(in_chunk(chunk_start(j) as int, j));
    lemma_chunk_of_is(chunk_start(j) as int, j);
}

/// The chunks of all indices below the capacity are there.
pub proof fn lemma_chunk_is_present(present: Seq<bool>, i: int)
    requires
        present.len() == CHUNKS,
        0 <= i < capacity_of(present),
        i < CAPACITY,
    ensures
        present[chunk_of(i) as int],
{
    let c = chunk_of(i);
    lemma_chunk_of(i);
    lemma_leading_present(present);
    if leading(present) <= c {
        lemma_chunk_start_monotone(leading(present), c);
    }
}

/// The capacity covers the elements.
pub proof fn lemma_capacity_covers(present: Seq<bool>, len: nat)
    requires
        in_order(present, len),
        len <= CAPACITY,
    ensures
        len <= capacity_of(present),
{
    if len > 0 {
        let last = len - 1;
        lemma_chunk_of(last);
        assert(present[chunk_of(last) as int]);
        lemma_leading_prefix(present, chunk_of(last) as int);
        lemma_chunk_start_monotone(chunk_of(last) + 1, leading(present));
    }
}

/// One more element: the capacity covers it, and grows only if it was used up.
pub proof fn lemma_pushed_capacity(present: Seq<bool>, len: nat)
    requires
        in_order(present, len),
        len <= u32::MAX,
    ensures
        ({
            let pushed = present.update(chunk_of(len as int) as int, true);
            &&& in_order(pushed, len + 1)
            &&& capacity_of(pushed) >= len + 1
            &&& len < capacity_of(present) ==> pushed == present
            &&& capacity_of(pushed) != capacity_of(present) ==> len == capacity_of(present)
        }),
{
    let pushed = present.update(chunk_of(len as int) as int, true);
    lemma_covering_update(present, len as int);
    lemma_capacity_covers(pushed, len + 1);
    lemma_capacity_covers(present, len);
    if len < capacity_of(present) {
        lemma_chunk_is_present(present, len as int);
        lemma_chunk_of(len as int);
        assert(pushed =~= present);
    }
}

/// Among the capacities that a vector can have, none that is enough for `n` elements is smaller.
pub proof fn lemma_least_capacity(n: nat)
    requires
        n <= CAPACITY,
    ensures
        least_capacity(n) >= n,
        exists|k: nat| k <= CHUNKS && least_capacity(n) == #[trigger] chunk_start(k),
        forall|k: nat| #[trigger] chunk_start(k) >= n ==> chunk_start(k) >= least_capacity(n),
{
    if n == 0 {
        assert(least_capacity(n) == chunk_start(0));
    } else {
        let c = chunk_of(n - 1);
        lemma_chunk_of(n - 1);
        assert(least_capacity(n) == chunk_start(c + 1));
        assert forall|k: nat| #[trigger] chunk_start(k) >= n implies chunk_start(k)
            >= least_capacity(n) by {
            if k <= c {
                lemma_chunk_start_monotone(k, c);
            } else {
                lemma_chunk_start_monotone(c + 1, k);
            }
        }
    }
}

/// A reservation leads to the larger one of the capacity before it and the smallest one that is
/// enough: no chunk is made that is not needed, and none is taken away.
#[verifier::rlimit(50)]
pub proof fn lemma_reserved_capacity(present: Seq<bool>, len: nat, additional: nat)
    requires
        in_order(present, len),
        len + additional <= CAPACITY,
    ensures
        in_order(reserved(present, len, additional), len),
        capacity_of(reserved(present, len, additional)) == (if capacity_of(present)
            >= least_capacity(len + additional) {
            capacity_of(present)
        } else {
            least_capacity(len + additional)
        }),
{
    let n = reserved(present, len, additional);
    if len + additional > 0 {
        let c = chunk_of(len + additional - 1);
        let l = leading(present);
        lemma_chunk_of(len + additional - 1);
        lemma_leading_present(present);
        assert(forall|k: int| l <= k < present.len() ==> !#[trigger] present[k]) by {
            reveal(prefix_closed);
        }
        assert(prefix_closed(n)) by {
            reveal(prefix_closed);
        }
        assert forall|i: int| 0 <= i < len implies n[#[trigger] chunk_of(i) as int] by {
            assert(present[chunk_of(i) as int]);
            lemma_chunk_of(i);
        }
        if l > c {
            assert(n =~= present);
            lemma_chunk_start_monotone(c + 1, l);
        } else {
            lemma_leading(n, c + 1);
            lemma_chunk_start_monotone(l, c + 1);
        }
    } else {
        assert(least_capacity(0) == 0);
    }
}

/// A second reservation of the same room changes nothing.
pub proof fn lemma_reserved_again(present: Seq<bool>, len: nat, additional: nat)
    ensures
        reserved(reserved(present, len, additional), len, additional) == reserved(
            present,
            len,
            additional,
        ),
{
    assert(reserved(reserved(present, len, additional), len, additional) =~= reserved(
        present,
        len,
        additional,
    ));
}

} // verus!
