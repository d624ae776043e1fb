//! A fixed-capacity circular buffer that overwrites its oldest entry when a
//! new one is inserted.
//!
//! The buffer owns a backing vector of exactly `capacity` slots and a write
//! cursor `head`.  `head` is always the physical slot that the next insertion
//! overwrites, which is also the physical location of the logically oldest
//! element.  Reads are age-relative: [`RingBuffer::get_oldest`] counts from
//! the oldest element forward, [`RingBuffer::get_newest`] from the newest
//! element backward, and [`RingBuffer::get`] takes a signed offset.
//!
//! A buffer of capacity zero holds no slot: insertion and the read operations
//! require a positive capacity, while construction and iteration remain
//! available and iteration yields nothing.

use vstd::prelude::*;

pub mod iterators;
pub mod laws;

verus! {

/// Models the wrap-around of `usize::wrapping_add_signed` as an integer:
/// `base + offset` reduced into the `usize` range.
pub open spec fn wrapped_add(base: int, offset: int) -> int {
    let range = usize::MAX as int + 1;
    if base + offset > usize::MAX as int {
        base + offset - range
    } else if base + offset < 0 {
        base + offset + range
    } else {
        base + offset
    }
}

/// The bias added to `head` before a signed offset: the largest multiple of
/// `n` that is at most `usize::MAX / 2`.  Adding it keeps small negative
/// offsets from crossing zero, and being a multiple of `n` it is transparent
/// under reduction modulo `n`.
pub open spec fn mid_bias(n: int) -> int {
    let half = usize::MAX as int / 2;
    half - half % n
}

/// The bias used by newest-relative reads: a multiple of `n` close to
/// `usize::MAX`, but far enough below it that `upper_bias(n) + head - 1 - age`
/// stays within `usize` for every age below `n`.
pub open spec fn upper_bias(n: int) -> int {
    usize::MAX as int - n - usize::MAX as int % n
}

/// Physical slot read by an age-relative (oldest-first) access.
pub open spec fn oldest_slot(head: int, n: int, age: int) -> int {
    (head + age) % n
}

/// Physical slot read by a signed-relative access.  The wrap-around of the
/// fixed-width addition is part of the observable behaviour: when the biased
/// sum leaves the `usize` range, the reduction modulo `n` is off by
/// `(usize::MAX + 1) % n`, so for capacities that are not a power of two an
/// offset near `isize::MIN` can land on a slot other than the mathematically
/// correct one.
pub open spec fn relative_slot(head: int, n: int, offset: int) -> int {
    wrapped_add(head + mid_bias(n), offset) % n
}

/// Physical slot read by an owning take: a signed offset added directly onto
/// `head`, with the same fixed-width wrap-around as [`relative_slot`] but
/// without the bias, so any negative offset larger than `head` wraps.
pub open spec fn owned_slot(head: int, n: int, offset: int) -> int {
    wrapped_add(head, offset) % n
}

#[derive(Debug, Clone)]
pub struct RingBuffer<T> {
    buffer: Vec<T>,
    head: usize,
}

impl<T> RingBuffer<T> {
    /// The physical slots, in the order the backing vector stores them.
    pub closed spec fn slots(&self) -> Seq<T> {
        self.buffer@
    }

    /// The physical slot that the next insertion overwrites; it holds the
    /// logically oldest element.
    pub closed spec fn head_index(&self) -> int {
        self.head as int
    }

    /// The number of slots, fixed for the lifetime of the buffer.
    pub open spec fn capacity(&self) -> int {
        self.slots().len() as int
    }

    /// `head` names a slot whenever there is one.
    pub open spec fn well_formed(&self) -> bool {
        if self.capacity() == 0 {
            self.head_index() == 0
        } else {
            0 <= self.head_index() < self.capacity()
        }
    }

    /// The stored elements in logical order, oldest first: the physical
    /// sequence rotated so that `head` comes first.
    pub open spec fn logical(&self) -> Seq<T> {
        self.slots().subrange(self.head_index(), self.capacity()) + self.slots().subrange(
            0,
            self.head_index(),
        )
    }

    /// The element an age-relative read returns: ages at and beyond the
    /// capacity alias onto `age % capacity`.
    pub open spec fn oldest_read(&self, age: int) -> T {
        self.logical()[age % self.capacity()]
    }

    /// The element a newest-relative read returns: age 0 is the newest
    /// element, which sits last in logical order.
    pub open spec fn newest_read(&self, age: int) -> T {
        self.logical()[self.capacity() - 1 - age % self.capacity()]
    }

    /// The element a signed-relative read returns, wrap-around defect
    /// included.
    pub open spec fn relative_read(&self, offset: int) -> T {
        self.slots()[relative_slot(self.head_index(), self.capacity(), offset)]
    }

    /// The logical sequence after one insertion: the oldest element leaves at
    /// the front and the new element enters at the back.
    pub open spec fn put_step(s: Seq<T>, item: T) -> Seq<T> {
        s.subrange(1, s.len() as int).push(item)
    }

    /// What a bulk load leaves behind: the most recent `capacity` items of
    /// the source fill the first physical slots in order, every slot the
    /// source does not reach keeps `fill`, and the write cursor stands just
    /// past the last written slot (wrapped onto the first when the source
    /// covers the whole buffer).
    pub open spec fn loaded_from(&self, capacity: int, src: Seq<T>, fill: T) -> bool {
        let kept = if src.len() <= capacity {
            src.len() as int
        } else {
            capacity
        };
        &&& self.capacity() == capacity
        &&& self.head_index() == (if capacity == 0 {
            0int
        } else {
            kept % capacity
        })
        &&& self.slots() == src.subrange(src.len() - kept, src.len() as int) + Seq::new(
            (capacity - kept) as nat,
            |i: int| fill,
        )
    }

    /// Reduces an index into the slot range of a buffer with `n` slots.
    fn wrap_idx(idx: usize, n: usize) -> (r: usize)
        requires
            n > 0,
        ensures
            r as int == idx as int % n as int,
    {
        idx % n
    }

    /// The number of slots, as a machine integer.
    pub fn len(&self) -> (n: usize)
        ensures
            n as int == self.capacity(),
    {
        self.buffer.len()
    }

    /// Inserts `item` into the slot at `head`, returns the element it
    /// evicts, and advances `head` to the next slot.
    pub fn put(&mut self, item: T) -> (evicted: T)
        requires
            old(self).well_formed(),
            old(self).capacity() > 0,
        ensures
            final(self).well_formed(),
            final(self).capacity() == old(self).capacity(),
            evicted == old(self).logical()[0],
            final(self).logical() == Self::put_step(old(self).logical(), item),
            final(self).slots() == old(self).slots().update(old(self).head_index(), item),
            final(self).head_index() == (old(self).head_index() + 1) % old(self).capacity(),
    {
        let ghost old_self = *old(self);
        let n = self.buffer.len();
        self.buffer.push(item);
        let evicted = self.buffer.swap_remove(self.head);
        self.head = Self::wrap_idx(self.head + 1, n);
        proof {
            assert(self.slots() =~= old_self.slots().update(old_self.head_index(), item));
            if old_self.head_index() + 1 < old_self.capacity() {
                assert(self.head_index() == old_self.head_index() + 1) by {
                    vstd::arithmetic::div_mod::lemma_small_mod(
                        (old_self.head_index() + 1) as nat,
                        old_self.capacity() as nat,
                    );
                };
            } else {
                assert(self.head_index() == 0) by {
                    vstd::arithmetic::div_mod::lemma_mod_self_0(old_self.capacity());
                };
            }
            assert(self.logical() =~= Self::put_step(old_self.logical(), item));
            assert(evicted == old_self.logical()[0]);
        }
        evicted
    }

    /// Overwrites the element `idx` steps past the oldest one; the write
    /// cursor does not move.  Backs the mutable iterator.
    pub(crate) fn set_oldest(&mut self, idx: usize, value: T)
        requires
            old(self).well_formed(),
            old(self).capacity() > 0,
            idx + old(self).head_index() <= usize::MAX,
        ensures
            final(self).well_formed(),
            final(self).capacity() == old(self).capacity(),
            final(self).head_index() == old(self).head_index(),
            final(self).slots() == old(self).slots().update(
                oldest_slot(old(self).head_index(), old(self).capacity(), idx as int),
                value,
            ),
            final(self).logical() == old(self).logical().update(
                idx as int % old(self).capacity(),
                value,
            ),
    {
        let ghost old_self = *old(self);
        let n = self.buffer.len();
        let slot = Self::wrap_idx(idx + self.head, n);
        self.buffer.push(value);
        let _evicted = self.buffer.swap_remove(slot);
        proof {
            let n = old_self.capacity();
            let h = old_self.head_index();
            let j = idx as int % n;
            vstd::arithmetic::div_mod::lemma_mod_bound(idx as int, n);
            assert((idx as int + h) % n == (h + j) % n) by {
                vstd::arithmetic::div_mod::lemma_add_mod_noop(h, idx as int, n);
                vstd::arithmetic::div_mod::lemma_add_mod_noop(h, j, n);
                vstd::arithmetic::div_mod::lemma_mod_twice(idx as int, n);
                vstd::arithmetic::div_mod::lemma_small_mod(h as nat, n as nat);
            };
            if h + j < n {
                vstd::arithmetic::div_mod::lemma_small_mod((h + j) as nat, n as nat);
            } else {
                assert((h + j) % n == h + j - n) by {
                    vstd::arithmetic::div_mod::lemma_mod_multiples_vanish(-1, h + j, n);
                    vstd::arithmetic::div_mod::lemma_small_mod((h + j - n) as nat, n as nat);
                };
            }
            assert(self.slots() =~= old_self.slots().update(oldest_slot(h, n, idx as int), value));
            assert(self.logical() =~= old_self.logical().update(j, value));
        }
    }
}

impl<T: Default> RingBuffer<T> {
    /// Moves the element at a signed offset from the oldest one out of the
    /// buffer, leaving a freshly made default value in its slot.  The offset
    /// is added onto `head` without a bias, so a negative offset larger than
    /// `head` wraps through the top of the unsigned range before the
    /// reduction modulo the capacity.
    pub fn get_owned(&mut self, idx: isize) -> (taken: T)
        requires
            old(self).well_formed(),
            old(self).capacity() > 0,
        ensures
            final(self).well_formed(),
            final(self).capacity() == old(self).capacity(),
            final(self).head_index() == old(self).head_index(),
            taken == old(self).slots()[owned_slot(
                old(self).head_index(),
                old(self).capacity(),
                idx as int,
            )],
            final(self).slots() == old(self).slots().update(
                owned_slot(old(self).head_index(), old(self).capacity(), idx as int),
                final(self).slots()[owned_slot(
                    old(self).head_index(),
                    old(self).capacity(),
                    idx as int,
                )],
            ),
            call_ensures(
                <T as core::default::Default>::default,
                (),
                final(self).slots()[owned_slot(
                    old(self).head_index(),
                    old(self).capacity(),
                    idx as int,
                )],
            ),
    {
        let ghost old_self = *old(self);
        let n = self.buffer.len();
        let new_idx = usize::wrapping_add_signed(self.head, idx);
        let slot = Self::wrap_idx(new_idx, n);
        self.buffer.push(T::default());
        let taken = self.buffer.swap_remove(slot);
        proof {
            let s = owned_slot(old_self.head_index(), old_self.capacity(), idx as int);
            assert(self.slots() =~= old_self.slots().update(s, self.slots()[s]));
        }
        taken
    }
}

/// The slot `age` steps past `head` (physically, wrapping) holds the element
/// `age` steps into the logical order (reduced modulo the capacity).
pub proof fn lemma_slot_is_logical<T>(buf: &RingBuffer<T>, age: int)
    requires
        buf.well_formed(),
        buf.capacity() > 0,
    ensures
        buf.slots()[(buf.head_index() + age) % buf.capacity()] == buf.logical()[age
            % buf.capacity()],
{
    let n = buf.capacity();
    let h = buf.head_index();
    let j = age % n;
    vstd::arithmetic::div_mod::lemma_mod_bound(age, n);
    assert((h + age) % n == (h + j) % n) by {
        vstd::arithmetic::div_mod::lemma_add_mod_noop(h, age, n);
        vstd::arithmetic::div_mod::lemma_add_mod_noop(h, j, n);
        vstd::arithmetic::div_mod::lemma_mod_twice(age, n);
        vstd::arithmetic::div_mod::lemma_small_mod(h as nat, n as nat);
    };
    if h + j < n {
        vstd::arithmetic::div_mod::lemma_small_mod((h + j) as nat, n as nat);
    } else {
        assert((h + j) % n == h + j - n) by {
            vstd::arithmetic::div_mod::lemma_mod_multiples_vanish(-1, h + j, n);
            vstd::arithmetic::div_mod::lemma_small_mod((h + j - n) as nat, n as nat);
        };
    }
}

impl<T: Copy> RingBuffer<T> {
    /// Builds a buffer whose slots all hold `init_value`, with the write
    /// cursor on the first slot.
    pub fn new(capacity: usize, init_value: T) -> (buf: Self)
        ensures
            buf.well_formed(),
            buf.capacity() == capacity as int,
            buf.head_index() == 0,
            buf.slots() == Seq::new(capacity as nat, |i: int| init_value),
            buf.logical() == buf.slots(),
    {
        let mut buffer: Vec<T> = Vec::new();
        let mut i: usize = 0;
        while i < capacity
            invariant
                i <= capacity,
                buffer@ == Seq::new(i as nat, |j: int| init_value),
            decreases capacity - i,
        {
            buffer.push(init_value);
            i = i + 1;
            proof {
                assert(buffer@ =~= Seq::new(i as nat, |j: int| init_value));
            }
        }
        let buf = RingBuffer { buffer, head: 0 };
        proof {
            assert(buf.logical() =~= buf.slots());
        }
        buf
    }

    /// Reads the element `idx` steps past the oldest one; indices at and
    /// beyond the capacity alias onto `idx % capacity`.
    pub fn get_oldest(&self, idx: usize) -> (r: T)
        requires
            self.well_formed(),
            self.capacity() > 0,
            idx + self.head_index() <= usize::MAX,
        ensures
            r == self.oldest_read(idx as int),
    {
        let n = self.buffer.len();
        let wrapped = Self::wrap_idx(idx + self.head, n);
        proof {
            lemma_slot_is_logical(self, idx as int);
        }
        self.buffer[wrapped]
    }

    /// Reads the element `idx` steps before the newest one.  The subtraction
    /// is kept in the unsigned domain by first adding [`upper_bias`], whose
    /// reduction modulo the capacity is transparent.
    pub fn get_newest(&self, idx: usize) -> (r: T)
        requires
            self.well_formed(),
            self.capacity() > 0,
            upper_bias(self.capacity()) >= 0,
            idx as int <= upper_bias(self.capacity()) + self.head_index() - 1,
        ensures
            r == self.newest_read(idx as int),
    {
        let n = self.buffer.len();
        let upper = usize::MAX - n - usize::MAX % n;
        let wrapped = Self::wrap_idx(upper + self.head - 1 - idx, n);
        proof {
            let cap = self.capacity();
            let h = self.head_index();
            lemma_bias_is_multiple(cap);
            assert((upper_bias(cap) + h - 1 - idx) % cap == (h + (-1 - idx)) % cap) by {
                vstd::arithmetic::div_mod::lemma_mod_multiples_vanish(
                    upper_bias(cap) / cap,
                    h - 1 - idx,
                    cap,
                );
                vstd::arithmetic::div_mod::lemma_fundamental_div_mod(upper_bias(cap), cap);
            };
            lemma_slot_is_logical(self, -1 - idx);
            assert((-1 - idx) % cap == cap - 1 - idx as int % cap) by {
                vstd::arithmetic::div_mod::lemma_mod_bound(idx as int, cap);
                vstd::arithmetic::div_mod::lemma_sub_mod_noop_right(-1, idx as int, cap);
                vstd::arithmetic::div_mod::lemma_mod_multiples_vanish(
                    1,
                    -1 - idx as int % cap,
                    cap,
                );
                vstd::arithmetic::div_mod::lemma_small_mod(
                    (cap - 1 - idx as int % cap) as nat,
                    cap as nat,
                );
            };
        }
        self.buffer[wrapped]
    }

    /// Reads the element at a signed offset from the oldest one: offset 0 is
    /// the oldest element, positive offsets move toward newer elements,
    /// negative offsets wrap toward the newest.  The offset is added onto
    /// `head` biased by [`mid_bias`]; for capacities that are not a power of
    /// two and offsets near `isize::MIN` the fixed-width wrap-around makes
    /// the computed slot differ from the mathematically correct one, a
    /// boundary defect that is part of the contract.
    pub fn get(&self, idx: isize) -> (r: T)
        requires
            self.well_formed(),
            self.capacity() > 0,
            self.head_index() + mid_bias(self.capacity()) <= usize::MAX,
        ensures
            r == self.relative_read(idx as int),
    {
        let n = self.buffer.len();
        let half = usize::MAX / 2;
        proof {
            if n as int <= half as int {
                vstd::arithmetic::div_mod::lemma_mod_bound(half as int, n as int);
            } else {
                vstd::arithmetic::div_mod::lemma_small_mod(half as nat, n as nat);
            }
        }
        let mid = half - half % n;
        let new_idx = usize::wrapping_add_signed(self.head + mid, idx);
        let wrapped = Self::wrap_idx(new_idx, n);
        self.buffer[wrapped]
    }
}

impl<T: Copy + Default> RingBuffer<T> {
    /// Builds a buffer whose slots all hold one freshly made default value of
    /// the element type.
    pub fn new_default(capacity: usize) -> (buf: Self)
        ensures
            buf.well_formed(),
            buf.capacity() == capacity as int,
            buf.head_index() == 0,
            buf.logical() == buf.slots(),
            exists|d: T|
                #[trigger] call_ensures(<T as core::default::Default>::default, (), d)
                    && buf.slots() == Seq::new(capacity as nat, |i: int| d),
    {
        let fill = T::default();
        let buf = Self::new(capacity, fill);
        proof {
            assert(call_ensures(<T as core::default::Default>::default, (), fill)
                && buf.slots() == Seq::new(capacity as nat, |i: int| fill));
        }
        buf
    }

    /// Builds a buffer of the given capacity from an ordered source,
    /// retaining only the most recent items: when the source is longer than
    /// the capacity, the earliest excess items are discarded unwritten; when
    /// it is shorter, the slots it never reaches keep the default fill value.
    pub fn from_iter(capacity: usize, items: Vec<T>) -> (buf: Self)
        ensures
            buf.well_formed(),
            buf.capacity() == capacity as int,
            exists|d: T|
                #[trigger] call_ensures(<T as core::default::Default>::default, (), d)
                    && buf.loaded_from(capacity as int, items@, d),
    {
        let ghost src = items@;
        let mut buf = Self::new_default(capacity);
        let ghost d: T = choose|d: T|
            #[trigger] call_ensures(<T as core::default::Default>::default, (), d)
                && buf.slots() == Seq::new(capacity as nat, |i: int| d);
        let total = items.len();
        let skip = if total > capacity {
            total - capacity
        } else {
            0
        };
        let mut i = skip;
        proof {
            if capacity > 0 {
                vstd::arithmetic::div_mod::lemma_small_mod(0, capacity as nat);
            }
            assert(buf.slots() =~= src.subrange(skip as int, skip as int) + Seq::new(
                capacity as nat,
                |j: int| d,
            ));
        }
        while i < total
            invariant
                skip <= i <= total,
                total - skip <= capacity,
                total == src.len(),
                items@ == src,
                skip == (if src.len() <= capacity as nat {
                    0int
                } else {
                    src.len() - capacity as int
                }),
                buf.well_formed(),
                buf.capacity() == capacity as int,
                capacity > 0 ==> buf.head_index() == (i - skip) % capacity as int,
                capacity == 0 ==> i == skip,
                call_ensures(<T as core::default::Default>::default, (), d),
                buf.slots() == src.subrange(skip as int, i as int) + Seq::new(
                    (capacity as int - (i - skip)) as nat,
                    |j: int| d,
                ),
            decreases total - i,
        {
            let ghost m = i - skip;
            proof {
                assert(m < capacity as int);
                vstd::arithmetic::div_mod::lemma_small_mod(m as nat, capacity as nat);
            }
            buf.put(items[i]);
            i = i + 1;
            proof {
                vstd::arithmetic::div_mod::lemma_mod_bound(m + 1, capacity as int);
                if m + 1 < capacity as int {
                    vstd::arithmetic::div_mod::lemma_small_mod((m + 1) as nat, capacity as nat);
                } else {
                    vstd::arithmetic::div_mod::lemma_mod_self_0(capacity as int);
                }
                assert(buf.slots() =~= src.subrange(skip as int, i as int) + Seq::new(
                    (capacity as int - (i - skip)) as nat,
                    |j: int| d,
                ));
            }
        }
        proof {
            let kept = if src.len() <= capacity as nat {
                src.len() as int
            } else {
                capacity as int
            };
            assert(buf.slots() =~= src.subrange(src.len() - kept, src.len() as int) + Seq::new(
                (capacity as int - kept) as nat,
                |j: int| d,
            ));
        }
        buf
    }
}

/// Both bias constants reduce to zero modulo the capacity they were built
/// from.
pub proof fn lemma_bias_is_multiple(n: int)
    requires
        n > 0,
    ensures
        mid_bias(n) % n == 0,
        upper_bias(n) % n == 0,
        mid_bias(n) == n * (mid_bias(n) / n),
        upper_bias(n) == n * (upper_bias(n) / n),
        0 <= mid_bias(n) <= usize::MAX as int / 2,
        n <= usize::MAX as int / 2 ==> mid_bias(n) >= n,
        n > usize::MAX as int / 2 ==> mid_bias(n) == 0,
{
    let half = usize::MAX as int / 2;
    let top = usize::MAX as int;
    if n <= half {
        vstd::arithmetic::div_mod::lemma_mod_bound(half, n);
    } else {
        vstd::arithmetic::div_mod::lemma_small_mod(half as nat, n as nat);
    }
    vstd::arithmetic::div_mod::lemma_fundamental_div_mod(half, n);
    vstd::arithmetic::mul::lemma_mul_is_commutative(n, half / n);
    assert(mid_bias(n) == (half / n) * n);
    vstd::arithmetic::div_mod::lemma_mod_multiples_basic(half / n, n);
    if n <= half {
        vstd::arithmetic::div_mod::lemma_div_non_zero(half, n);
        vstd::arithmetic::mul::lemma_mul_inequality(1, half / n, n);
    }
    vstd::arithmetic::div_mod::lemma_fundamental_div_mod(top, n);
    vstd::arithmetic::mul::lemma_mul_is_commutative(n, top / n);
    vstd::arithmetic::mul::lemma_mul_is_distributive_sub_other_way(n, top / n, 1);
    assert(upper_bias(n) == (top / n - 1) * n);
    vstd::arithmetic::div_mod::lemma_mod_multiples_basic(top / n - 1, n);
    vstd::arithmetic::div_mod::lemma_fundamental_div_mod(mid_bias(n), n);
    vstd::arithmetic::div_mod::lemma_fundamental_div_mod(upper_bias(n), n);
}

} // verus!
