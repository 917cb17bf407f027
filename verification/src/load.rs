//! Buffers for the benchmark: a fixed-capacity memory pool of `N` slots,
//! each either free or holding one value owned by a live [`Block`], and the
//! authenticated encryption of a buffer into a frame `nonce | ciphertext | tag`.

use vstd::prelude::*;
use std::marker::PhantomData;
use crate::crypto::{
    aes256_gcm_decrypt_in_place, aes256_gcm_encrypt_in_place, aes256_gcm_open, aes256_gcm_seal,
    fill_random, GCM_P_MAX,
};

verus! {

/// A type with a canonical all-zero value.
///
/// Implementors promise that `zeroed` returns a value of which `is_zeroed` holds.
pub trait Zeroable: Copy + Sized {
    /// Whether `self` is the all-zero value of the type.
    spec fn is_zeroed(&self) -> bool;

    /// The all-zero value.
    fn zeroed() -> (z: Self)
        ensures
            z.is_zeroed(),
    ;
}

impl Zeroable for u8 {
    open spec fn is_zeroed(&self) -> bool { *self == 0 }
    fn zeroed() -> (z: Self) { 0 }
}

impl Zeroable for u16 {
    open spec fn is_zeroed(&self) -> bool { *self == 0 }
    fn zeroed() -> (z: Self) { 0 }
}

impl Zeroable for u32 {
    open spec fn is_zeroed(&self) -> bool { *self == 0 }
    fn zeroed() -> (z: Self) { 0 }
}

impl Zeroable for u64 {
    open spec fn is_zeroed(&self) -> bool { *self == 0 }
    fn zeroed() -> (z: Self) { 0 }
}

impl Zeroable for usize {
    open spec fn is_zeroed(&self) -> bool { *self == 0 }
    fn zeroed() -> (z: Self) { 0 }
}

impl Zeroable for i8 {
    open spec fn is_zeroed(&self) -> bool { *self == 0 }
    fn zeroed() -> (z: Self) { 0 }
}

impl Zeroable for i16 {
    open spec fn is_zeroed(&self) -> bool { *self == 0 }
    fn zeroed() -> (z: Self) { 0 }
}

impl Zeroable for i32 {
    open spec fn is_zeroed(&self) -> bool { *self == 0 }
    fn zeroed() -> (z: Self) { 0 }
}

impl Zeroable for i64 {
    open spec fn is_zeroed(&self) -> bool { *self == 0 }
    fn zeroed() -> (z: Self) { 0 }
}

impl Zeroable for isize {
    open spec fn is_zeroed(&self) -> bool { *self == 0 }
    fn zeroed() -> (z: Self) { 0 }
}

impl<T: Zeroable, const M: usize> Zeroable for [T; M] {
    open spec fn is_zeroed(&self) -> bool {
        forall|i: int| 0 <= i < M ==> #[trigger] self@[i].is_zeroed()
    }

    fn zeroed() -> (z: Self) {
        let element = T::zeroed();
        let z: [T; M] = vstd::array::array_fill_for_copy_types(element);
        proof {
            vstd::array::axiom_spec_array_fill_for_copy_type::<T, M>(element);
        }
        z
    }
}

/// What `try_alloc_zeroed` stores for integer types and arrays of them: the
/// all-zero value of an integer is the number 0, and an all-zero array of
/// integers holds 0 in every element.
pub proof fn lemma_zeroed_u8_is_zero<const M: usize>(x: u8, a: [u8; M])
    ensures
        x.is_zeroed() ==> x == 0,
        a.is_zeroed() ==> forall|i: int| 0 <= i < M ==> #[trigger] a@[i] == 0,
{
    if a.is_zeroed() {
        assert forall|i: int| 0 <= i < M implies #[trigger] a@[i] == 0 by {
            assert(a@[i].is_zeroed());
        }
    }
}

/// The all-zero `u16` is 0, and an all-zero `[u16; M]` holds 0 in every element.
pub proof fn lemma_zeroed_u16_is_zero<const M: usize>(x: u16, a: [u16; M])
    ensures
        x.is_zeroed() ==> x == 0,
        a.is_zeroed() ==> forall|i: int| 0 <= i < M ==> #[trigger] a@[i] == 0,
{
    if a.is_zeroed() {
        assert forall|i: int| 0 <= i < M implies #[trigger] a@[i] == 0 by {
            assert(a@[i].is_zeroed());
        }
    }
}

/// The all-zero `u32` is 0, and an all-zero `[u32; M]` holds 0 in every element.
pub proof fn lemma_zeroed_u32_is_zero<const M: usize>(x: u32, a: [u32; M])
    ensures
        x.is_zeroed() ==> x == 0,
        a.is_zeroed() ==> forall|i: int| 0 <= i < M ==> #[trigger] a@[i] == 0,
{
    if a.is_zeroed() {
        assert forall|i: int| 0 <= i < M implies #[trigger] a@[i] == 0 by {
            assert(a@[i].is_zeroed());
        }
    }
}

/// The all-zero `u64` is 0, and an all-zero `[u64; M]` holds 0 in every element.
pub proof fn lemma_zeroed_u64_is_zero<const M: usize>(x: u64, a: [u64; M])
    ensures
        x.is_zeroed() ==> x == 0,
        a.is_zeroed() ==> forall|i: int| 0 <= i < M ==> #[trigger] a@[i] == 0,
{
    if a.is_zeroed() {
        assert forall|i: int| 0 <= i < M implies #[trigger] a@[i] == 0 by {
            assert(a@[i].is_zeroed());
        }
    }
}

/// The all-zero `usize` is 0, and an all-zero `[usize; M]` holds 0 in every element.
pub proof fn lemma_zeroed_usize_is_zero<const M: usize>(x: usize, a: [usize; M])
    ensures
        x.is_zeroed() ==> x == 0,
        a.is_zeroed() ==> forall|i: int| 0 <= i < M ==> #[trigger] a@[i] == 0,
{
    if a.is_zeroed() {
        assert forall|i: int| 0 <= i < M implies #[trigger] a@[i] == 0 by {
            assert(a@[i].is_zeroed());
        }
    }
}

/// The all-zero `i8` is 0, and an all-zero `[i8; M]` holds 0 in every element.
pub proof fn lemma_zeroed_i8_is_zero<const M: usize>(x: i8, a: [i8; M])
    ensures
        x.is_zeroed() ==> x == 0,
        a.is_zeroed() ==> forall|i: int| 0 <= i < M ==> #[trigger] a@[i] == 0,
{
    if a.is_zeroed() {
        assert forall|i: int| 0 <= i < M implies #[trigger] a@[i] == 0 by {
            assert(a@[i].is_zeroed());
        }
    }
}

/// The all-zero `i16` is 0, and an all-zero `[i16; M]` holds 0 in every element.
pub proof fn lemma_zeroed_i16_is_zero<const M: usize>(x: i16, a: [i16; M])
    ensures
        x.is_zeroed() ==> x == 0,
        a.is_zeroed() ==> forall|i: int| 0 <= i < M ==> #[trigger] a@[i] == 0,
{
    if a.is_zeroed() {
        assert forall|i: int| 0 <= i < M implies #[trigger] a@[i] == 0 by {
            assert(a@[i].is_zeroed());
        }
    }
}

/// The all-zero `i32` is 0, and an all-zero `[i32; M]` holds 0 in every element.
pub proof fn lemma_zeroed_i32_is_zero<const M: usize>(x: i32, a: [i32; M])
    ensures
        x.is_zeroed() ==> x == 0,
        a.is_zeroed() ==> forall|i: int| 0 <= i < M ==> #[trigger] a@[i] == 0,
{
    if a.is_zeroed() {
        assert forall|i: int| 0 <= i < M implies #[trigger] a@[i] == 0 by {
            assert(a@[i].is_zeroed());
        }
    }
}

/// The all-zero `i64` is 0, and an all-zero `[i64; M]` holds 0 in every element.
pub proof fn lemma_zeroed_i64_is_zero<const M: usize>(x: i64, a: [i64; M])
    ensures
        x.is_zeroed() ==> x == 0,
        a.is_zeroed() ==> forall|i: int| 0 <= i < M ==> #[trigger] a@[i] == 0,
{
    if a.is_zeroed() {
        assert forall|i: int| 0 <= i < M implies #[trigger] a@[i] == 0 by {
            assert(a@[i].is_zeroed());
        }
    }
}

/// The all-zero `isize` is 0, and an all-zero `[isize; M]` holds 0 in every element.
pub proof fn lemma_zeroed_isize_is_zero<const M: usize>(x: isize, a: [isize; M])
    ensures
        x.is_zeroed() ==> x == 0,
        a.is_zeroed() ==> forall|i: int| 0 <= i < M ==> #[trigger] a@[i] == 0,
{
    if a.is_zeroed() {
        assert forall|i: int| 0 <= i < M implies #[trigger] a@[i] == 0 by {
            assert(a@[i].is_zeroed());
        }
    }
}

// ---------------------------------------------------------------------------
// The abstract pool: a sequence of slots, `None` for a free slot and
// `Some(v)` for a slot owned by a live block holding `v`.
// ---------------------------------------------------------------------------

/// Every slot is taken.
pub open spec fn is_full<T>(slots: Seq<Option<T>>) -> bool {
    forall|j: int| 0 <= j < slots.len() ==> #[trigger] slots[j] is Some
}

/// `i` is the lowest free slot.
pub open spec fn is_first_free<T>(slots: Seq<Option<T>>, i: int) -> bool {
    &&& 0 <= i < slots.len()
    &&& slots[i] is None
    &&& forall|j: int| 0 <= j < i ==> #[trigger] slots[j] is Some
}

/// The slot an allocation takes: the lowest free one, if any.
pub open spec fn first_free<T>(slots: Seq<Option<T>>) -> Option<int> {
    if exists|i: int| is_first_free(slots, i) {
        Some(choose|i: int| is_first_free(slots, i))
    } else {
        None
    }
}

/// Number of taken slots (live blocks).
pub open spec fn live_count<T>(slots: Seq<Option<T>>) -> nat
    decreases slots.len(),
{
    if slots.len() == 0 {
        0
    } else {
        live_count(slots.drop_last()) + if slots.last() is Some { 1nat } else { 0nat }
    }
}

/// The slots and the number of successful allocations after trying to
/// allocate each of `values` in turn, with no release in between.
pub open spec fn alloc_run<T>(slots: Seq<Option<T>>, values: Seq<T>) -> (Seq<Option<T>>, nat)
    decreases values.len(),
{
    if values.len() == 0 {
        (slots, 0nat)
    } else {
        match first_free(slots) {
            Some(i) => {
                let rest = alloc_run(slots.update(i, Some(values[0])), values.drop_first());
                (rest.0, rest.1 + 1)
            },
            None => alloc_run(slots, values.drop_first()),
        }
    }
}

proof fn lemma_live_count_update<T>(slots: Seq<Option<T>>, i: int, x: Option<T>)
    requires
        0 <= i < slots.len(),
    ensures
        live_count(slots.update(i, x)) + (if slots[i] is Some { 1int } else { 0int })
            == live_count(slots) + (if x is Some { 1int } else { 0int }),
    decreases slots.len(),
{
    let u = slots.update(i, x);
    if i == slots.len() - 1 {
        assert(u.drop_last() =~= slots.drop_last());
    } else {
        assert(u.drop_last() =~= slots.drop_last().update(i, x));
        lemma_live_count_update(slots.drop_last(), i, x);
    }
}

/// A pool never holds more live blocks than it has slots, and it is
/// exhausted exactly when every slot is live.
pub proof fn lemma_live_count_bounded<T>(slots: Seq<Option<T>>)
    ensures
        live_count(slots) <= slots.len(),
        live_count(slots) == slots.len() <==> is_full(slots),
    decreases slots.len(),
{
    if slots.len() > 0 {
        let front = slots.drop_last();
        lemma_live_count_bounded(front);
        if is_full(slots) {
            assert forall|j: int| 0 <= j < front.len() implies #[trigger] front[j] is Some by {
                assert(slots[j] is Some);
            }
        }
        if live_count(slots) == slots.len() {
            assert forall|j: int| 0 <= j < slots.len() implies #[trigger] slots[j] is Some by {
                if j < front.len() {
                    assert(front[j] is Some);
                }
            }
        }
    }
}

/// An allocation takes exactly the lowest free slot, and fails exactly when
/// every slot is taken.
pub proof fn lemma_first_free_is_lowest_free<T>(slots: Seq<Option<T>>)
    ensures
        forall|i: int| is_first_free(slots, i) <==> first_free(slots) == Some(i),
        first_free(slots) is None <==> is_full(slots),
{
    assert forall|i: int, k: int| is_first_free(slots, i) && is_first_free(slots, k) implies i == k by {
        if i < k {
            assert(slots[i] is Some);
        } else if k < i {
            assert(slots[k] is Some);
        }
    }
    if !is_full(slots) {
        let j = choose|j: int| 0 <= j < slots.len() && !(#[trigger] slots[j] is Some);
        lemma_some_free_has_lowest(slots, j);
    } else {
        assert forall|i: int| !is_first_free(slots, i) by {
            if 0 <= i < slots.len() {
                assert(slots[i] is Some);
            }
        }
    }
}

proof fn lemma_some_free_has_lowest<T>(slots: Seq<Option<T>>, j: int)
    requires
        0 <= j < slots.len(),
        slots[j] is None,
    ensures
        exists|i: int| is_first_free(slots, i),
    decreases j,
{
    if forall|k: int| 0 <= k < j ==> #[trigger] slots[k] is Some {
        assert(is_first_free(slots, j));
    } else {
        let k = choose|k: int| 0 <= k < j && !(#[trigger] slots[k] is Some);
        lemma_some_free_has_lowest(slots, k);
    }
}

/// A successful allocation adds exactly one live block.
pub proof fn lemma_alloc_adds_one_live<T>(slots: Seq<Option<T>>, i: int, value: T)
    requires
        is_first_free(slots, i),
    ensures
        live_count(slots.update(i, Some(value))) == live_count(slots) + 1,
{
    lemma_live_count_update(slots, i, Some(value));
}

/// Releasing a live block removes exactly one live block.
pub proof fn lemma_release_removes_one_live<T>(slots: Seq<Option<T>>, i: int)
    requires
        0 <= i < slots.len(),
        slots[i] is Some,
    ensures
        live_count(slots.update(i, None)) + 1 == live_count(slots),
{
    lemma_live_count_update(slots, i, None);
}

/// Releasing the block that an allocation handed out gives back the pool
/// as it was before the allocation.
pub proof fn lemma_release_undoes_alloc<T>(slots: Seq<Option<T>>, i: int, value: T)
    requires
        is_first_free(slots, i),
    ensures
        slots.update(i, Some(value)).update(i, None) == slots,
{
    assert(slots.update(i, Some(value)).update(i, None) =~= slots);
}

/// What an allocation stores is what its block reads, and no other slot changes.
pub proof fn lemma_alloc_then_read<T>(slots: Seq<Option<T>>, i: int, value: T)
    requires
        is_first_free(slots, i),
    ensures
        slots.update(i, Some(value))[i] == Some(value),
        forall|j: int| 0 <= j < slots.len() && j != i ==> #[trigger] slots.update(i, Some(value))[j] == slots[j],
{
}

/// Releasing one block frees its slot and leaves every other slot, and so
/// every other block's value, as it was.
pub proof fn lemma_release_keeps_others<T>(slots: Seq<Option<T>>, i: int)
    requires
        0 <= i < slots.len(),
    ensures
        slots.update(i, None)[i] is None,
        forall|j: int| 0 <= j < slots.len() && j != i ==> #[trigger] slots.update(i, None)[j] == slots[j],
{
}

/// Two allocations with no release between them hand out different slots,
/// the later one higher up: no slot is ever owned by two live blocks.
pub proof fn lemma_successive_allocs_distinct<T>(slots: Seq<Option<T>>, i: int, value: T, k: int)
    requires
        is_first_free(slots, i),
        is_first_free(slots.update(i, Some(value)), k),
    ensures
        i < k,
{
    if k < i {
        assert(slots[k] is Some);
    }
}

/// Once a block is released the pool is no longer exhausted, and the next
/// allocation takes a slot no higher than the released one.
pub proof fn lemma_alloc_after_release<T>(slots: Seq<Option<T>>, i: int)
    requires
        0 <= i < slots.len(),
    ensures
        !is_full(slots.update(i, None)),
        first_free(slots.update(i, None)) matches Some(k) && k <= i,
{
    let u = slots.update(i, None);
    assert(!(u[i] is Some));
    lemma_first_free_is_lowest_free(u);
    let k: int = first_free(u)->0;
    if k > i {
        assert(u[i] is Some);
    }
}

/// Trying `values.len()` allocations in a row succeeds exactly
/// `min(values.len(), free slots)` times: allocation fails only once every
/// slot is taken, and never more blocks are live than the pool has slots.
pub proof fn lemma_alloc_run_successes<T>(slots: Seq<Option<T>>, values: Seq<T>)
    ensures
        alloc_run(slots, values).1 == vstd::math::min(
            values.len() as int,
            slots.len() - live_count(slots),
        ),
        alloc_run(slots, values).0.len() == slots.len(),
    decreases values.len(),
{
    lemma_live_count_bounded(slots);
    lemma_first_free_is_lowest_free(slots);
    if values.len() > 0 {
        match first_free(slots) {
            Some(i) => {
                let next = slots.update(i, Some(values[0]));
                lemma_alloc_adds_one_live(slots, i, values[0]);
                lemma_alloc_run_successes(next, values.drop_first());
            },
            None => {
                lemma_alloc_run_successes(slots, values.drop_first());
            },
        }
    }
}

/// One operation on a pool, as a sequence of operations sees it: allocate a
/// value, or free the `k`-th of the blocks outstanding at that moment.
pub enum PoolOp<T> {
    Alloc(T),
    Free(usize),
}

/// The slots, and the slots owned by the outstanding blocks (in the order
/// they were handed out), after one operation. Freeing a block that does not
/// exist changes nothing.
pub open spec fn pool_step<T>(slots: Seq<Option<T>>, owners: Seq<int>, op: PoolOp<T>) -> (Seq<Option<T>>, Seq<int>) {
    match op {
        PoolOp::Alloc(value) => match first_free(slots) {
            Some(i) => (slots.update(i, Some(value)), owners.push(i)),
            None => (slots, owners),
        },
        PoolOp::Free(k) => if k < owners.len() {
            (slots.update(owners[k as int], None), owners.remove(k as int))
        } else {
            (slots, owners)
        },
    }
}

/// The slots and outstanding blocks after a sequence of operations.
pub open spec fn pool_run<T>(slots: Seq<Option<T>>, owners: Seq<int>, ops: Seq<PoolOp<T>>) -> (Seq<Option<T>>, Seq<int>)
    decreases ops.len(),
{
    if ops.len() == 0 {
        (slots, owners)
    } else {
        let next = pool_step(slots, owners, ops[0]);
        pool_run(next.0, next.1, ops.drop_first())
    }
}

/// The outstanding blocks own pairwise distinct slots, each holding a value,
/// and they are exactly as many as the taken slots.
pub open spec fn blocks_own_distinct_slots<T>(slots: Seq<Option<T>>, owners: Seq<int>) -> bool {
    &&& forall|a: int, b: int| 0 <= a < b < owners.len() ==> #[trigger] owners[a] != #[trigger] owners[b]
    &&& forall|a: int| 0 <= a < owners.len() ==> 0 <= #[trigger] owners[a] < slots.len() && slots[owners[a]] is Some
    &&& owners.len() == live_count(slots)
}

proof fn lemma_live_count_all_free<T>(n: nat)
    ensures
        live_count(Seq::new(n, |i: int| None::<T>)) == 0,
    decreases n,
{
    if n > 0 {
        assert(Seq::new(n, |i: int| None::<T>).drop_last() =~= Seq::new((n - 1) as nat, |i: int| None::<T>));
        lemma_live_count_all_free::<T>((n - 1) as nat);
    }
}

/// Every operation keeps the outstanding blocks on pairwise distinct taken slots.
pub proof fn lemma_pool_step_keeps_ownership<T>(slots: Seq<Option<T>>, owners: Seq<int>, op: PoolOp<T>)
    requires
        blocks_own_distinct_slots(slots, owners),
    ensures
        blocks_own_distinct_slots(pool_step(slots, owners, op).0, pool_step(slots, owners, op).1),
        pool_step(slots, owners, op).0.len() == slots.len(),
{
    lemma_first_free_is_lowest_free(slots);
    match op {
        PoolOp::Alloc(value) => {
            if let Some(i) = first_free(slots) {
                let s2 = slots.update(i, Some(value));
                let o2 = owners.push(i);
                lemma_alloc_adds_one_live(slots, i, value);
                assert forall|a: int| 0 <= a < owners.len() implies #[trigger] owners[a] != i by {
                    assert(slots[owners[a]] is Some);
                }
                assert forall|a: int, b: int| 0 <= a < b < o2.len() implies #[trigger] o2[a] != #[trigger] o2[b] by {
                    if b == owners.len() {
                        assert(owners[a] != i);
                    } else {
                        assert(owners[a] != owners[b]);
                    }
                }
                assert forall|a: int| 0 <= a < o2.len() implies 0 <= #[trigger] o2[a] < s2.len() && s2[o2[a]] is Some by {
                    if a < owners.len() {
                        assert(owners[a] != i);
                        assert(slots[owners[a]] is Some);
                    }
                }
            }
        },
        PoolOp::Free(k) => {
            if k < owners.len() {
                let o = owners[k as int];
                let s2 = slots.update(o, None);
                let o2 = owners.remove(k as int);
                lemma_release_removes_one_live(slots, o);
                assert(forall|a: int| 0 <= a < o2.len() ==> #[trigger] o2[a] == if a < k { owners[a] } else { owners[a + 1] });
                assert forall|a: int, b: int| 0 <= a < b < o2.len() implies #[trigger] o2[a] != #[trigger] o2[b] by {
                    let aa = if a < k { a } else { a + 1 };
                    let bb = if b < k { b } else { b + 1 };
                    assert(o2[a] == owners[aa]);
                    assert(o2[b] == owners[bb]);
                    assert(owners[aa] != owners[bb]);
                }
                assert forall|a: int| 0 <= a < o2.len() implies 0 <= #[trigger] o2[a] < s2.len() && s2[o2[a]] is Some by {
                    let aa = if a < k { a } else { a + 1 };
                    assert(o2[a] == owners[aa]);
                    assert(owners[aa] != owners[k as int]) by {
                        if aa < k {
                            assert(owners[aa] != owners[k as int]);
                        } else {
                            assert(owners[k as int] != owners[aa]);
                        }
                    }
                    assert(slots[owners[aa]] is Some);
                }
            }
        },
    }
}

/// Whatever the sequence of allocations and frees on a pool, the outstanding
/// blocks own pairwise distinct slots, each holding a value, and they are
/// exactly as many as the taken slots.
pub proof fn lemma_pool_run_keeps_ownership<T>(slots: Seq<Option<T>>, owners: Seq<int>, ops: Seq<PoolOp<T>>)
    requires
        blocks_own_distinct_slots(slots, owners),
    ensures
        blocks_own_distinct_slots(pool_run(slots, owners, ops).0, pool_run(slots, owners, ops).1),
        pool_run(slots, owners, ops).0.len() == slots.len(),
    decreases ops.len(),
{
    if ops.len() > 0 {
        lemma_pool_step_keeps_ownership(slots, owners, ops[0]);
        let next = pool_step(slots, owners, ops[0]);
        lemma_pool_run_keeps_ownership(next.0, next.1, ops.drop_first());
    }
}

/// Starting from a new pool of `n` slots, after any sequence of allocations
/// and frees no two outstanding blocks share a slot, every outstanding block's
/// slot holds a value, and at most `n` blocks are outstanding.
pub proof fn lemma_blocks_own_distinct_slots<T>(n: nat, ops: Seq<PoolOp<T>>)
    ensures
        ({
            let (slots, owners) = pool_run(Seq::new(n, |i: int| None::<T>), Seq::<int>::empty(), ops);
            &&& slots.len() == n
            &&& blocks_own_distinct_slots(slots, owners)
            &&& owners.len() <= n
        }),
{
    let start = Seq::new(n, |i: int| None::<T>);
    lemma_live_count_all_free::<T>(n);
    lemma_pool_run_keeps_ownership(start, Seq::<int>::empty(), ops);
    let (slots, owners) = pool_run(start, Seq::<int>::empty(), ops);
    lemma_live_count_bounded(slots);
}

/// A pool of `N` slots for values of type `T`.
///
/// Allocation claims the lowest free slot and hands out a [`Block`] that owns
/// it; [`StaticMemPool::free_block`] takes the block back and frees its slot.
/// A block that is dropped without being freed keeps its slot taken.
pub struct StaticMemPool<T, const N: usize> {
    slots: Vec<Option<T>>,
    id: Ghost<int>,
}

/// Exclusive ownership of one slot of one [`StaticMemPool`].
///
/// Hand it back with [`StaticMemPool::free_block`]: dropping it leaves its
/// slot taken.
#[must_use]
pub struct Block<T, const N: usize> {
    index: usize,
    pool_id: Ghost<int>,
    marker: PhantomData<T>,
}

/// An identity for a new pool. Nothing is known of it, so a block can be
/// shown to belong to a pool only by having been allocated from it.
proof fn fresh_pool_id() -> int {
    0
}

impl<T, const N: usize> View for StaticMemPool<T, N> {
    type V = Seq<Option<T>>;

    closed spec fn view(&self) -> Seq<Option<T>> {
        self.slots@
    }
}

impl<T, const N: usize> StaticMemPool<T, N> {
    #[verifier::type_invariant]
    spec fn has_n_slots(&self) -> bool {
        self.slots@.len() == N
    }

    /// The identity of this pool: the blocks it hands out carry it.
    pub closed spec fn id(&self) -> int {
        self.id@
    }

    /// A new pool with all `N` slots free.
    pub fn init() -> (pool: Self)
        ensures
            pool@ =~= Seq::new(N as nat, |i: int| None::<T>),
    {
        let mut slots: Vec<Option<T>> = Vec::new();
        let mut i: usize = 0;
        while i < N
            invariant
                0 <= i <= N,
                slots@ =~= Seq::new(i as nat, |k: int| None::<T>),
            decreases N - i,
        {
            slots.push(None);
            i += 1;
        }
        let ghost id: int = fresh_pool_id();
        StaticMemPool { slots, id: Ghost(id) }
    }

    /// The number of slots, `N`; the pool always has exactly `N` slots.
    pub fn capacity(&self) -> (n: usize)
        ensures
            n == N,
            self@.len() == N,
    {
        proof { use_type_invariant(self); }
        N
    }

    /// Index of the lowest free slot, or `None` when every slot is taken.
    fn find_free(&self) -> (r: Option<usize>)
        ensures
            match r {
                Some(i) => is_first_free(self@, i as int) && i < N,
                None => is_full(self@),
            },
    {
        proof { use_type_invariant(self); }
        let mut i: usize = 0;
        while i < N
            invariant
                0 <= i <= N,
                self.slots@.len() == N,
                forall|j: int| 0 <= j < i ==> #[trigger] self.slots@[j] is Some,
            decreases N - i,
        {
            if self.slots[i].is_none() {
                return Some(i);
            }
            i += 1;
        }
        None
    }

    /// Puts `value` into slot `i`.
    fn store(&mut self, i: usize, value: Option<T>)
        requires
            i < N,
        ensures
            final(self)@ == old(self)@.update(i as int, value),
            final(self).id() == old(self).id(),
        no_unwind
    {
        proof { use_type_invariant(&*self); }
        self.slots[i] = value;
    }

    /// Claims the lowest free slot and stores `value` in it; `None` when the
    /// pool is exhausted (the pool is then unchanged).
    pub fn try_alloc(&mut self, value: T) -> (r: Option<Block<T, N>>)
        ensures
            final(self).id() == old(self).id(),
            old(self)@.len() == N,
            final(self)@.len() == N,
            match r {
                Some(b) => {
                    &&& b.pool_id() == old(self).id()
                    &&& b.slot() < N
                    &&& is_first_free(old(self)@, b.slot() as int)
                    &&& final(self)@ == old(self)@.update(b.slot() as int, Some(value))
                },
                None => is_full(old(self)@) && final(self)@ == old(self)@,
            },
            forall|owners: Seq<int>| #[trigger] pool_step(old(self)@, owners, PoolOp::Alloc(value)) == (final(self)@, match r {
                Some(b) => owners.push(b.slot() as int),
                None => owners,
            }),
    {
        proof {
            use_type_invariant(&*self);
            lemma_first_free_is_lowest_free(self@);
        }
        match self.find_free() {
            Some(i) => {
                self.store(i, Some(value));
                Some(Block { index: i, pool_id: Ghost(self.id@), marker: PhantomData })
            },
            None => None,
        }
    }

    /// Like `try_alloc`, but the value is produced by `init`, which is called
    /// only once a slot has been claimed.
    pub fn try_alloc_with<F: FnOnce() -> T>(&mut self, init: F) -> (r: Option<Block<T, N>>)
        requires
            call_requires(init, ()),
        ensures
            final(self).id() == old(self).id(),
            old(self)@.len() == N,
            final(self)@.len() == N,
            match r {
                Some(b) => {
                    &&& b.pool_id() == old(self).id()
                    &&& b.slot() < N
                    &&& is_first_free(old(self)@, b.slot() as int)
                    &&& final(self)@[b.slot() as int] is Some
                    &&& call_ensures(init, (), final(self)@[b.slot() as int]->0)
                    &&& final(self)@ == old(self)@.update(b.slot() as int, final(self)@[b.slot() as int])
                },
                None => is_full(old(self)@) && final(self)@ == old(self)@,
            },
            r matches Some(b) ==> forall|owners: Seq<int>|
                #[trigger] pool_step(old(self)@, owners, PoolOp::Alloc(final(self)@[b.slot() as int]->0))
                    == (final(self)@, owners.push(b.slot() as int)),
            r is None ==> forall|owners: Seq<int>, v: T|
                #[trigger] pool_step(old(self)@, owners, PoolOp::Alloc(v)) == (final(self)@, owners),
    {
        proof {
            use_type_invariant(&*self);
            lemma_first_free_is_lowest_free(self@);
        }
        match self.find_free() {
            Some(i) => {
                let value = init();
                self.store(i, Some(value));
                Some(Block { index: i, pool_id: Ghost(self.id@), marker: PhantomData })
            },
            None => None,
        }
    }

    /// Claims the lowest free slot and fills it with the all-zero value.
    pub fn try_alloc_zeroed(&mut self) -> (r: Option<Block<T, N>>)
        where T: Zeroable,
        ensures
            final(self).id() == old(self).id(),
            old(self)@.len() == N,
            final(self)@.len() == N,
            match r {
                Some(b) => {
                    &&& b.pool_id() == old(self).id()
                    &&& b.slot() < N
                    &&& is_first_free(old(self)@, b.slot() as int)
                    &&& final(self)@[b.slot() as int] is Some
                    &&& (final(self)@[b.slot() as int]->0).is_zeroed()
                    &&& final(self)@ == old(self)@.update(b.slot() as int, final(self)@[b.slot() as int])
                },
                None => is_full(old(self)@) && final(self)@ == old(self)@,
            },
            r matches Some(b) ==> forall|owners: Seq<int>|
                #[trigger] pool_step(old(self)@, owners, PoolOp::Alloc(final(self)@[b.slot() as int]->0))
                    == (final(self)@, owners.push(b.slot() as int)),
            r is None ==> forall|owners: Seq<int>, v: T|
                #[trigger] pool_step(old(self)@, owners, PoolOp::Alloc(v)) == (final(self)@, owners),
    {
        proof {
            use_type_invariant(&*self);
            lemma_first_free_is_lowest_free(self@);
        }
        match self.find_free() {
            Some(i) => {
                let value = T::zeroed();
                self.store(i, Some(value));
                Some(Block { index: i, pool_id: Ghost(self.id@), marker: PhantomData })
            },
            None => None,
        }
    }

    /// Takes `block` back: the value it owned is dropped and its slot is free again.
    pub fn free_block(&mut self, block: Block<T, N>)
        requires
            block.pool_id() == old(self).id(),
        ensures
            final(self).id() == old(self).id(),
            old(self)@.len() == N,
            final(self)@.len() == N,
            block.slot() < N,
            final(self)@ == old(self)@.update(block.slot() as int, None),
            forall|owners: Seq<int>, k: usize|
                k < owners.len() && owners[k as int] == block.slot() ==> #[trigger] pool_step(old(self)@, owners, PoolOp::Free(k))
                    == (final(self)@, owners.remove(k as int)),
    {
        proof {
            use_type_invariant(&block);
            use_type_invariant(&*self);
        }
        self.store(block.index, None);
    }
}

impl<T, const N: usize> Block<T, N> {
    #[verifier::type_invariant]
    spec fn index_in_range(&self) -> bool {
        self.index < N
    }

    /// The slot this block owns.
    pub closed spec fn slot(&self) -> nat {
        self.index as nat
    }

    /// The identity of the pool this block was allocated from.
    pub closed spec fn pool_id(&self) -> int {
        self.pool_id@
    }

    /// The index of the owned slot.
    pub fn index(&self) -> (i: usize)
        ensures
            i == self.slot(),
            i < N,
    {
        proof { use_type_invariant(self); }
        self.index
    }

    /// The value held in the owned slot.
    pub fn get<'p>(&self, pool: &'p StaticMemPool<T, N>) -> (v: &'p T)
        requires
            self.pool_id() == pool.id(),
            pool@[self.slot() as int] is Some,
        ensures
            pool@.len() == N,
            self.slot() < N,
            pool@[self.slot() as int] == Some(*v),
    {
        proof {
            use_type_invariant(self);
            use_type_invariant(pool);
        }
        match &pool.slots[self.index] {
            Some(v) => v,
            None => vstd::pervasive::unreached(),
        }
    }

    /// Mutable access to the value held in the owned slot; whatever is
    /// written through the reference is what the slot holds afterwards.
    pub fn get_mut<'p>(&self, pool: &'p mut StaticMemPool<T, N>) -> (v: &'p mut T)
        requires
            self.pool_id() == old(pool).id(),
            old(pool)@[self.slot() as int] is Some,
        ensures
            final(pool).id() == old(pool).id(),
            old(pool)@.len() == N,
            self.slot() < N,
            old(pool)@[self.slot() as int] == Some(*v),
            final(pool)@ == old(pool)@.update(self.slot() as int, Some(*final(v))),
        no_unwind
    {
        proof {
            use_type_invariant(self);
            use_type_invariant(&*pool);
        }
        match &mut pool.slots[self.index] {
            Some(v) => v,
            None => vstd::pervasive::unreached(),
        }
    }
}

// ---------------------------------------------------------------------------
// Authenticated encryption of a buffer into a self-describing frame:
// `nonce (12 bytes) | ciphertext (as long as the plaintext) | tag (16 bytes)`.
// ---------------------------------------------------------------------------

/// Length of the random nonce that starts a frame.
pub const NONCE_LEN: usize = 12;

/// Length of the authentication tag that ends a frame.
pub const TAG_LEN: usize = 16;

/// Why a frame could not be produced or opened.
#[derive(Debug, Clone, Copy, PartialEq, Eq)]
pub enum CryptoError {
    /// The output buffer is shorter than the `needed` bytes.
    OutputTooSmall { needed: usize },
    /// The input is shorter than a nonce and a tag.
    CiphertextTooShort,
    /// The cipher refused the data: too long, or (on decryption) not authentic.
    Aead,
}

/// `frame` is the encryption of `plaintext` under `key`: its first
/// `NONCE_LEN` bytes are the nonce, and the rest is the AES-256-GCM
/// ciphertext and tag of `plaintext` under that nonce, with no associated data.
pub open spec fn is_sealed_frame(key: Seq<u8>, frame: Seq<u8>, plaintext: Seq<u8>) -> bool {
    &&& frame.len() == NONCE_LEN + plaintext.len() + TAG_LEN
    &&& plaintext.len() <= GCM_P_MAX
    &&& frame.skip(NONCE_LEN as int) == aes256_gcm_seal(
        key,
        frame.take(NONCE_LEN as int),
        Seq::empty(),
        plaintext,
    )
}

/// What opening `frame` under `key` yields: the plaintext if the frame is
/// authentic, `None` otherwise (`frame` holds at least a nonce and a tag).
pub open spec fn opened_frame(key: Seq<u8>, frame: Seq<u8>) -> Option<Seq<u8>> {
    let ciphertext_len: int = frame.len() - NONCE_LEN - TAG_LEN;
    aes256_gcm_open(
        key,
        frame.take(NONCE_LEN as int),
        Seq::empty(),
        frame.subrange(NONCE_LEN as int, NONCE_LEN + ciphertext_len),
        frame.skip(NONCE_LEN + ciphertext_len),
    )
}

/// Encrypts `input` into the start of `output` as a frame
/// `nonce | ciphertext | tag` with a fresh random nonce, and returns the
/// frame's length `NONCE_LEN + input.len() + TAG_LEN`.
pub fn encrypt_buf(input: &[u8], output: &mut [u8], key: &[u8; 32]) -> (r: Result<usize, CryptoError>)
    requires
        NONCE_LEN + input@.len() + TAG_LEN <= usize::MAX,
    ensures
        final(output)@.len() == old(output)@.len(),
        old(output)@.len() < NONCE_LEN + input@.len() + TAG_LEN ==> {
            &&& r == Err::<usize, CryptoError>(
                CryptoError::OutputTooSmall { needed: (NONCE_LEN + input@.len() + TAG_LEN) as usize },
            )
            &&& final(output)@ == old(output)@
        },
        old(output)@.len() >= NONCE_LEN + input@.len() + TAG_LEN && input@.len() <= GCM_P_MAX ==> {
            let n: int = NONCE_LEN + input@.len() + TAG_LEN;
            &&& r == Ok::<usize, CryptoError>(n as usize)
            &&& is_sealed_frame(key@, final(output)@.take(n), input@)
            &&& final(output)@.skip(n) == old(output)@.skip(n)
        },
        old(output)@.len() >= NONCE_LEN + input@.len() + TAG_LEN && input@.len() > GCM_P_MAX ==> {
            let n: int = NONCE_LEN + input@.len();
            &&& r == Err::<usize, CryptoError>(CryptoError::Aead)
            &&& final(output)@.subrange(NONCE_LEN as int, n) == input@
            &&& final(output)@.skip(n) == old(output)@.skip(n)
        },
{
    let plaintext_len: usize = input.len();
    let total: usize = NONCE_LEN + plaintext_len + TAG_LEN;
    if output.len() < total {
        return Err(CryptoError::OutputTooSmall { needed: total });
    }
    let ghost out0 = output@;
    let (nonce_buf, data_tag) = output.split_at_mut(NONCE_LEN);
    let (data, tag_buf) = data_tag.split_at_mut(plaintext_len);
    let ghost tag_buf0 = tag_buf@;

    fill_random(nonce_buf);

    let mut i: usize = 0;
    while i < plaintext_len
        invariant
            0 <= i <= plaintext_len,
            plaintext_len == input@.len(),
            data@.len() == plaintext_len,
            forall|j: int| 0 <= j < i ==> #[trigger] data@[j] == input@[j],
        decreases plaintext_len - i,
    {
        data[i] = input[i];
        i += 1;
    }
    assert(data@ =~= input@);

    let mut nonce: [u8; 12] = [0u8; 12];
    let mut k: usize = 0;
    while k < NONCE_LEN
        invariant
            0 <= k <= NONCE_LEN,
            nonce_buf@.len() == NONCE_LEN,
            forall|j: int| 0 <= j < k ==> #[trigger] nonce@[j] == nonce_buf@[j],
        decreases NONCE_LEN - k,
    {
        nonce[k] = nonce_buf[k];
        k += 1;
    }
    assert(nonce@ =~= nonce_buf@);

    let aad: Vec<u8> = Vec::new();
    match aes256_gcm_encrypt_in_place(key, &nonce, aad.as_slice(), data) {
        Ok(tag) => {
            let mut t: usize = 0;
            while t < TAG_LEN
                invariant
                    0 <= t <= TAG_LEN,
                    tag_buf@.len() == tag_buf0.len(),
                    tag_buf0.len() >= TAG_LEN,
                    forall|j: int| 0 <= j < t ==> #[trigger] tag_buf@[j] == tag@[j],
                    forall|j: int| TAG_LEN <= j < tag_buf0.len() ==> #[trigger] tag_buf@[j] == tag_buf0[j],
                decreases TAG_LEN - t,
            {
                tag_buf[t] = tag[t];
                t += 1;
            }
            assert(tag_buf@.take(TAG_LEN as int) =~= tag@);
            proof {
                let fin = nonce_buf@ + (data@ + tag_buf@);
                assert(nonce_buf@.len() == NONCE_LEN);
                assert(data@.len() == plaintext_len);
                assert(fin.take(total as int).skip(NONCE_LEN as int) =~= data@ + tag@);
                assert(fin.take(total as int).take(NONCE_LEN as int) =~= nonce@);
                assert(fin.skip(total as int) =~= out0.skip(total as int));
                assert(aad@ =~= Seq::<u8>::empty());
            }
            Ok(total)
        },
        Err(_) => {
            proof {
                let fin = nonce_buf@ + (data@ + tag_buf@);
                assert(fin.subrange(NONCE_LEN as int, NONCE_LEN + plaintext_len) =~= input@);
                assert(fin.skip(NONCE_LEN + plaintext_len) =~= out0.skip(NONCE_LEN + plaintext_len));
            }
            Err(CryptoError::Aead)
        },
    }
}

/// Opens a frame `nonce | ciphertext | tag` held in the whole of `input`,
/// writes the plaintext into the start of `output`, and returns its length
/// `input.len() - NONCE_LEN - TAG_LEN`.
pub fn decrypt_buf(input: &[u8], output: &mut [u8], key: &[u8; 32]) -> (r: Result<usize, CryptoError>)
    ensures
        final(output)@.len() == old(output)@.len(),
        input@.len() < NONCE_LEN + TAG_LEN ==> {
            &&& r == Err::<usize, CryptoError>(CryptoError::CiphertextTooShort)
            &&& final(output)@ == old(output)@
        },
        input@.len() >= NONCE_LEN + TAG_LEN && old(output)@.len() < input@.len() - NONCE_LEN - TAG_LEN ==> {
            &&& r == Err::<usize, CryptoError>(
                CryptoError::OutputTooSmall { needed: (input@.len() - NONCE_LEN - TAG_LEN) as usize },
            )
            &&& final(output)@ == old(output)@
        },
        input@.len() >= NONCE_LEN + TAG_LEN && old(output)@.len() >= input@.len() - NONCE_LEN - TAG_LEN ==> {
            let n: int = input@.len() - NONCE_LEN - TAG_LEN;
            &&& (r is Ok <==> n <= GCM_P_MAX && opened_frame(key@, input@) is Some)
            &&& (r is Ok ==> {
                &&& r == Ok::<usize, CryptoError>(n as usize)
                &&& final(output)@.take(n) == opened_frame(key@, input@)->0
            })
            &&& (r is Err ==> {
                &&& r == Err::<usize, CryptoError>(CryptoError::Aead)
                &&& final(output)@.take(n) == input@.subrange(NONCE_LEN as int, NONCE_LEN + n)
            })
            &&& final(output)@.skip(n) == old(output)@.skip(n)
        },
        forall|plaintext: Seq<u8>|
            #![trigger is_sealed_frame(key@, input@, plaintext)]
            is_sealed_frame(key@, input@, plaintext) && old(output)@.len() >= plaintext.len() ==> {
                &&& r == Ok::<usize, CryptoError>(plaintext.len() as usize)
                &&& final(output)@.take(plaintext.len() as int) == plaintext
            },
{
    if input.len() < NONCE_LEN + TAG_LEN {
        return Err(CryptoError::CiphertextTooShort);
    }
    let ciphertext_len: usize = input.len() - NONCE_LEN - TAG_LEN;
    if output.len() < ciphertext_len {
        return Err(CryptoError::OutputTooSmall { needed: ciphertext_len });
    }
    let ghost out0 = output@;

    let mut nonce: [u8; 12] = [0u8; 12];
    let mut k: usize = 0;
    while k < NONCE_LEN
        invariant
            0 <= k <= NONCE_LEN,
            input@.len() >= NONCE_LEN,
            forall|j: int| 0 <= j < k ==> #[trigger] nonce@[j] == input@[j],
        decreases NONCE_LEN - k,
    {
        nonce[k] = input[k];
        k += 1;
    }
    assert(nonce@ =~= input@.take(NONCE_LEN as int));

    let tag_start: usize = NONCE_LEN + ciphertext_len;
    let mut tag: [u8; 16] = [0u8; 16];
    let mut t: usize = 0;
    while t < TAG_LEN
        invariant
            0 <= t <= TAG_LEN,
            tag_start + TAG_LEN == input@.len(),
            input@.len() <= usize::MAX,
            forall|j: int| 0 <= j < t ==> #[trigger] tag@[j] == input@[tag_start + j],
        decreases TAG_LEN - t,
    {
        tag[t] = input[tag_start + t];
        t += 1;
    }
    assert(tag@ =~= input@.skip(tag_start as int));

    let (data, rest) = output.split_at_mut(ciphertext_len);
    let mut i: usize = 0;
    while i < ciphertext_len
        invariant
            0 <= i <= ciphertext_len,
            data@.len() == ciphertext_len,
            tag_start == NONCE_LEN + ciphertext_len,
            tag_start + TAG_LEN == input@.len(),
            forall|j: int| 0 <= j < i ==> #[trigger] data@[j] == input@[NONCE_LEN + j],
        decreases ciphertext_len - i,
    {
        data[i] = input[NONCE_LEN + i];
        i += 1;
    }
    let ghost ciphertext = data@;
    assert(ciphertext =~= input@.subrange(NONCE_LEN as int, tag_start as int));
    proof {
        assert forall|plaintext: Seq<u8>| is_sealed_frame(key@, input@, plaintext) implies
            ciphertext + tag@ == aes256_gcm_seal(key@, nonce@, Seq::empty(), plaintext) by {
            assert(input@.skip(NONCE_LEN as int) =~= ciphertext + tag@);
        }
    }

    let aad: Vec<u8> = Vec::new();
    assert(aad@ =~= Seq::<u8>::empty());
    let res = aes256_gcm_decrypt_in_place(key, &nonce, aad.as_slice(), data, &tag);
    proof {
        let fin = data@ + rest@;
        assert(fin.take(ciphertext_len as int) =~= data@);
        assert(fin.skip(ciphertext_len as int) =~= out0.skip(ciphertext_len as int));
    }
    match res {
        Ok(()) => Ok(ciphertext_len),
        Err(_) => Err(CryptoError::Aead),
    }
}

} // verus!
