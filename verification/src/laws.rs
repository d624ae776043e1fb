//! The buffer's governing laws, stated over the spec-level model and proved
//! once and for all: what a run of insertions leaves behind, how the three
//! read directions relate, what order iteration follows, and how a bulk load
//! treats an over-long source.

use crate::RingBuffer;
use crate::iterators::RingBufferIntoIter;
use crate::iterators::RingBufferIter;
use crate::iterators::RingBufferIterMut;
use crate::mid_bias;
use crate::lemma_bias_is_multiple;
use crate::lemma_slot_is_logical;
use vstd::prelude::*;

verus! {

/// The logical sequence after inserting `items` one by one, oldest first.
pub open spec fn put_all<T>(s: Seq<T>, items: Seq<T>) -> Seq<T>
    decreases items.len(),
{
    if items.len() == 0 {
        s
    } else {
        put_all(RingBuffer::<T>::put_step(s, items[0]), items.skip(1))
    }
}

/// A run of insertions retains exactly the most recent window: the logical
/// sequence afterwards is the last `s.len()` elements of the old contents
/// followed by everything inserted.
pub proof fn lemma_put_all_window<T>(s: Seq<T>, items: Seq<T>)
    requires
        s.len() >= 1,
    ensures
        put_all(s, items) == (s + items).subrange(items.len() as int, (s + items).len() as int),
    decreases items.len(),
{
    if items.len() == 0 {
        assert(put_all(s, items) =~= (s + items).subrange(
            items.len() as int,
            (s + items).len() as int,
        ));
    } else {
        let stepped = RingBuffer::<T>::put_step(s, items[0]);
        lemma_put_all_window(stepped, items.skip(1));
        assert(stepped + items.skip(1) =~= (s + items).skip(1));
        assert((stepped + items.skip(1)).subrange(
            items.len() - 1,
            (stepped + items.skip(1)).len() as int,
        ) =~= (s + items).subrange(items.len() as int, (s + items).len() as int));
    }
}

/// After at least as many insertions as the buffer has slots, the element
/// `i` steps past the oldest is the `(L - N + i)`-th item inserted, where
/// `L` counts the insertions and `N` the slots.
pub proof fn lemma_window_of_history<T>(buf: RingBuffer<T>, items: Seq<T>, i: int)
    requires
        buf.well_formed(),
        buf.capacity() >= 1,
        items.len() >= buf.capacity(),
        0 <= i < buf.capacity(),
    ensures
        put_all(buf.logical(), items)[i] == items[items.len() - buf.capacity() + i],
{
    lemma_put_all_window(buf.logical(), items);
}

/// Age-relative reads are periodic: an age past the capacity aliases onto
/// the same element as its reduction.
pub proof fn lemma_oldest_read_periodic<T>(buf: RingBuffer<T>, age: int)
    requires
        buf.well_formed(),
        buf.capacity() > 0,
    ensures
        buf.oldest_read(age + buf.capacity()) == buf.oldest_read(age),
{
    vstd::arithmetic::div_mod::lemma_mod_add_multiples_vanish(age, buf.capacity());
}

/// The two age directions mirror each other: `i` steps before the newest is
/// `N - 1 - i` steps past the oldest.
pub proof fn lemma_newest_mirrors_oldest<T>(buf: RingBuffer<T>, i: int)
    requires
        buf.well_formed(),
        buf.capacity() > 0,
        0 <= i < buf.capacity(),
    ensures
        buf.newest_read(i) == buf.oldest_read(buf.capacity() - 1 - i),
{
    let n = buf.capacity();
    vstd::arithmetic::div_mod::lemma_small_mod(i as nat, n as nat);
    vstd::arithmetic::div_mod::lemma_small_mod((n - 1 - i) as nat, n as nat);
}

/// For offsets inside the stored window, a signed-relative read agrees with
/// the age-relative read: the bias drops out because it is a multiple of the
/// capacity and the biased sum stays inside the unsigned range.
pub proof fn lemma_relative_matches_oldest<T>(buf: RingBuffer<T>, i: int)
    requires
        buf.well_formed(),
        buf.capacity() > 0,
        0 <= i < buf.capacity(),
        buf.head_index() + mid_bias(buf.capacity()) + i <= usize::MAX as int,
    ensures
        buf.relative_read(i) == buf.oldest_read(i),
{
    let n = buf.capacity();
    let h = buf.head_index();
    let m = mid_bias(n);
    lemma_bias_is_multiple(n);
    assert(crate::wrapped_add(h + m, i) == h + m + i);
    assert((h + m + i) % n == (h + i) % n) by {
        vstd::arithmetic::div_mod::lemma_mod_multiples_vanish(m / n, h + i, n);
    };
    lemma_slot_is_logical(&buf, i);
    vstd::arithmetic::div_mod::lemma_small_mod(i as nat, n as nat);
}

/// For negative offsets within one window, a signed-relative read wraps to
/// the end of the stored window: offset `-k` reads what age `N - k` reads.
pub proof fn lemma_relative_negative_wraps<T>(buf: RingBuffer<T>, k: int)
    requires
        buf.well_formed(),
        0 < buf.capacity() <= usize::MAX as int,
        1 <= k <= buf.capacity(),
        buf.head_index() + mid_bias(buf.capacity()) - k >= 0,
    ensures
        buf.relative_read(-k) == buf.oldest_read(buf.capacity() - k),
{
    let n = buf.capacity();
    let h = buf.head_index();
    let m = mid_bias(n);
    lemma_bias_is_multiple(n);
    assert(h + m - k <= usize::MAX as int);
    assert(crate::wrapped_add(h + m, -k) == h + m - k);
    assert((h + m - k) % n == (h + (n - k)) % n) by {
        vstd::arithmetic::div_mod::lemma_mod_multiples_vanish(m / n, h - k, n);
        vstd::arithmetic::div_mod::lemma_mod_multiples_vanish(1, h - k, n);
    };
    lemma_slot_is_logical(&buf, n - k);
    vstd::arithmetic::div_mod::lemma_small_mod((n - k) as nat, n as nat);
}

/// A fresh borrowing walk stands on exactly the age-relative reading order:
/// element `i` of what it will yield forward is the read at age `i`, so the
/// backward direction yields the same elements newest first.
pub proof fn lemma_iter_follows_oldest_order<T>(it: RingBufferIter<'_, T>, i: int)
    requires
        it.well_formed(),
        it.fwd() == 0,
        it.bwd() == it.source().capacity(),
        0 <= i < it.source().capacity(),
    ensures
        it.remaining().len() == it.source().capacity(),
        it.remaining()[i] == it.source().oldest_read(i),
{
    vstd::arithmetic::div_mod::lemma_small_mod(i as nat, it.source().capacity() as nat);
}

/// As [`lemma_iter_follows_oldest_order`], for the consuming walk.
pub proof fn lemma_into_iter_follows_oldest_order<T>(it: RingBufferIntoIter<T>, i: int)
    requires
        it.well_formed(),
        it.fwd() == 0,
        it.bwd() == it.source().capacity(),
        0 <= i < it.source().capacity(),
    ensures
        it.remaining().len() == it.source().capacity(),
        it.remaining()[i] == it.source().oldest_read(i),
{
    vstd::arithmetic::div_mod::lemma_small_mod(i as nat, it.source().capacity() as nat);
}

/// As [`lemma_iter_follows_oldest_order`], for the mutable walk.
pub proof fn lemma_iter_mut_follows_oldest_order<T>(it: RingBufferIterMut<T>, i: int)
    requires
        it.well_formed(),
        it.fwd() == 0,
        it.bwd() == it.source().capacity(),
        0 <= i < it.source().capacity(),
    ensures
        it.remaining().len() == it.source().capacity(),
        it.remaining()[i] == it.source().oldest_read(i),
{
    vstd::arithmetic::div_mod::lemma_small_mod(i as nat, it.source().capacity() as nat);
}

/// Bulk-loading an over-long source comes to the same thing as bulk-loading
/// only its most recent `capacity` items.
pub proof fn lemma_bulk_load_tail_only<T>(buf: RingBuffer<T>, capacity: int, src: Seq<T>, fill: T)
    requires
        0 <= capacity < src.len(),
        buf.loaded_from(capacity, src, fill),
    ensures
        buf.loaded_from(capacity, src.subrange(src.len() - capacity, src.len() as int), fill),
{
    let tail = src.subrange(src.len() - capacity, src.len() as int);
    assert(tail.subrange(tail.len() - capacity, tail.len() as int) =~= src.subrange(
        src.len() - capacity,
        src.len() as int,
    ));
}

/// What a bulk-loaded buffer answers to newest-relative reads: the most
/// recent source item first, then older ones, and the fill value once the
/// source is exhausted.
pub proof fn lemma_bulk_load_newest_reads<T>(
    buf: RingBuffer<T>,
    capacity: int,
    src: Seq<T>,
    fill: T,
    i: int,
)
    requires
        buf.loaded_from(capacity, src, fill),
        capacity > 0,
        0 <= i < capacity,
    ensures
        buf.newest_read(i) == (if src.len() <= capacity {
            if i < src.len() {
                src[src.len() - 1 - i]
            } else {
                fill
            }
        } else {
            src[src.len() - 1 - i]
        }),
{
    let n = capacity;
    let kept = if src.len() <= n {
        src.len() as int
    } else {
        n
    };
    vstd::arithmetic::div_mod::lemma_small_mod(i as nat, n as nat);
    if kept < n {
        vstd::arithmetic::div_mod::lemma_small_mod(kept as nat, n as nat);
    } else {
        vstd::arithmetic::div_mod::lemma_mod_self_0(n);
    }
}

} // verus!

