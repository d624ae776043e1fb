//! The iterator family: a borrowing iterator, a consuming iterator and a
//! mutable iterator, all walking the buffer in logical order.
//!
//! Each iterator keeps a forward cursor and a backward cursor over logical
//! ages.  The forward cursor starts at age 0 (the oldest element) and the
//! backward cursor one past age `capacity - 1` (the newest); advancing from
//! the front consumes the forward cursor's element, advancing from the back
//! retreats the backward cursor first.  Once the cursors meet, both
//! directions report exhausted and stay exhausted.

use crate::RingBuffer;
use vstd::prelude::*;

verus! {

/// A borrowing iterator over the logical order of a [`RingBuffer`].
pub struct RingBufferIter<'a, T> {
    ringbuffer: &'a RingBuffer<T>,
    index_forward: usize,
    index_backward: usize,
}

impl<'a, T> RingBufferIter<'a, T> {
    /// The buffer being walked.
    pub closed spec fn source(&self) -> RingBuffer<T> {
        *self.ringbuffer
    }

    /// The logical age the forward cursor stands on.
    pub closed spec fn fwd(&self) -> int {
        self.index_forward as int
    }

    /// The logical age just past the backward cursor.
    pub closed spec fn bwd(&self) -> int {
        self.index_backward as int
    }

    /// The backward cursor never leaves the logical range; the capacity
    /// bound keeps the age-plus-head sums of both cursors inside `usize`.
    pub open spec fn well_formed(&self) -> bool {
        &&& self.source().well_formed()
        &&& self.bwd() <= self.source().capacity()
        &&& self.source().capacity() <= usize::MAX as int / 2 + 1
    }

    /// The elements not yet consumed, in logical order.
    pub open spec fn remaining(&self) -> Seq<T> {
        if self.fwd() <= self.bwd() {
            self.source().logical().subrange(self.fwd(), self.bwd())
        } else {
            Seq::empty()
        }
    }
}

impl<'a, T: Copy> RingBufferIter<'a, T> {
    /// Yields the oldest element not yet consumed and advances the forward
    /// cursor, or reports exhaustion, leaving the iterator unchanged.
    pub fn next(&mut self) -> (r: Option<T>)
        requires
            old(self).well_formed(),
        ensures
            final(self).well_formed(),
            final(self).source() == old(self).source(),
            final(self).bwd() == old(self).bwd(),
            if old(self).fwd() < old(self).bwd() {
                &&& final(self).fwd() == old(self).fwd() + 1
                &&& r == Some(old(self).remaining()[0])
                &&& final(self).remaining() == old(self).remaining().skip(1)
            } else {
                &&& *final(self) == *old(self)
                &&& r is None
            },
    {
        if self.index_forward >= self.index_backward {
            return None;
        }
        let result = self.ringbuffer.get_oldest(self.index_forward);
        proof {
            vstd::arithmetic::div_mod::lemma_small_mod(
                self.index_forward as nat,
                self.source().capacity() as nat,
            );
        }
        self.index_forward = self.index_forward + 1;
        proof {
            assert(self.remaining() =~= old(self).remaining().skip(1));
        }
        Some(result)
    }

    /// Yields the newest element not yet consumed and retreats the backward
    /// cursor, or reports exhaustion, leaving the iterator unchanged.
    pub fn next_back(&mut self) -> (r: Option<T>)
        requires
            old(self).well_formed(),
        ensures
            final(self).well_formed(),
            final(self).source() == old(self).source(),
            final(self).fwd() == old(self).fwd(),
            if old(self).fwd() < old(self).bwd() {
                &&& final(self).bwd() == old(self).bwd() - 1
                &&& r == Some(old(self).remaining().last())
                &&& final(self).remaining() == old(self).remaining().drop_last()
            } else {
                &&& *final(self) == *old(self)
                &&& r is None
            },
    {
        if self.index_backward <= self.index_forward {
            return None;
        }
        self.index_backward = self.index_backward - 1;
        let result = self.ringbuffer.get_oldest(self.index_backward);
        proof {
            vstd::arithmetic::div_mod::lemma_small_mod(
                self.index_backward as nat,
                self.source().capacity() as nat,
            );
            assert(self.remaining() =~= old(self).remaining().drop_last());
        }
        Some(result)
    }

    /// Advances the forward cursor `n` extra steps, then acts as one call of
    /// [`Self::next`].
    pub fn nth(&mut self, n: usize) -> (r: Option<T>)
        requires
            old(self).well_formed(),
            old(self).fwd() + n <= usize::MAX,
        ensures
            final(self).well_formed(),
            final(self).source() == old(self).source(),
            final(self).bwd() == old(self).bwd(),
            if old(self).fwd() + n < old(self).bwd() {
                &&& final(self).fwd() == old(self).fwd() + n + 1
                &&& r == Some(old(self).source().logical()[old(self).fwd() + n])
            } else {
                &&& final(self).fwd() == old(self).fwd() + n
                &&& r is None
            },
    {
        self.index_forward = self.index_forward + n;
        self.next()
    }

    /// Retreats the backward cursor `n` extra steps, then acts as one call
    /// of [`Self::next_back`].
    pub fn nth_back(&mut self, n: usize) -> (r: Option<T>)
        requires
            old(self).well_formed(),
            n <= old(self).bwd(),
        ensures
            final(self).well_formed(),
            final(self).source() == old(self).source(),
            final(self).fwd() == old(self).fwd(),
            if old(self).fwd() < old(self).bwd() - n {
                &&& final(self).bwd() == old(self).bwd() - n - 1
                &&& r == Some(old(self).source().logical()[old(self).bwd() - n - 1])
            } else {
                &&& final(self).bwd() == old(self).bwd() - n
                &&& r is None
            },
    {
        self.index_backward = self.index_backward - n;
        self.next_back()
    }

    /// The exact number of logical elements the buffer holds, as the lower
    /// and upper bound of what a full walk yields.
    pub fn size_hint(&self) -> (r: (usize, Option<usize>))
        ensures
            r.0 as int == self.source().capacity(),
            r.1 == Some(r.0),
    {
        let n = self.ringbuffer.len();
        (n, Some(n))
    }

    /// The exact number of logical elements the buffer holds.
    pub fn len(&self) -> (n: usize)
        ensures
            n as int == self.source().capacity(),
    {
        self.ringbuffer.len()
    }
}

/// A consuming iterator: it owns the buffer and is destroyed with it.
pub struct RingBufferIntoIter<T> {
    ringbuffer: RingBuffer<T>,
    index_forward: usize,
    index_backward: usize,
}

impl<T> RingBufferIntoIter<T> {
    /// The buffer being walked.
    pub closed spec fn source(&self) -> RingBuffer<T> {
        self.ringbuffer
    }

    /// The logical age the forward cursor stands on.
    pub closed spec fn fwd(&self) -> int {
        self.index_forward as int
    }

    /// The logical age just past the backward cursor.
    pub closed spec fn bwd(&self) -> int {
        self.index_backward as int
    }

    /// The backward cursor never leaves the logical range; the capacity
    /// bound keeps the age-plus-head sums of both cursors inside `usize`.
    pub open spec fn well_formed(&self) -> bool {
        &&& self.source().well_formed()
        &&& self.bwd() <= self.source().capacity()
        &&& self.source().capacity() <= usize::MAX as int / 2 + 1
    }

    /// The elements not yet consumed, in logical order.
    pub open spec fn remaining(&self) -> Seq<T> {
        if self.fwd() <= self.bwd() {
            self.source().logical().subrange(self.fwd(), self.bwd())
        } else {
            Seq::empty()
        }
    }
}

impl<T: Copy> RingBufferIntoIter<T> {
    /// Yields the oldest element not yet consumed and advances the forward
    /// cursor, or reports exhaustion, leaving the iterator unchanged.
    pub fn next(&mut self) -> (r: Option<T>)
        requires
            old(self).well_formed(),
        ensures
            final(self).well_formed(),
            final(self).source() == old(self).source(),
            final(self).bwd() == old(self).bwd(),
            if old(self).fwd() < old(self).bwd() {
                &&& final(self).fwd() == old(self).fwd() + 1
                &&& r == Some(old(self).remaining()[0])
                &&& final(self).remaining() == old(self).remaining().skip(1)
            } else {
                &&& *final(self) == *old(self)
                &&& r is None
            },
    {
        if self.index_forward >= self.index_backward {
            return None;
        }
        let result = self.ringbuffer.get_oldest(self.index_forward);
        proof {
            vstd::arithmetic::div_mod::lemma_small_mod(
                self.index_forward as nat,
                self.source().capacity() as nat,
            );
        }
        self.index_forward = self.index_forward + 1;
        proof {
            assert(self.remaining() =~= old(self).remaining().skip(1));
        }
        Some(result)
    }

    /// Yields the newest element not yet consumed and retreats the backward
    /// cursor, or reports exhaustion, leaving the iterator unchanged.
    pub fn next_back(&mut self) -> (r: Option<T>)
        requires
            old(self).well_formed(),
        ensures
            final(self).well_formed(),
            final(self).source() == old(self).source(),
            final(self).fwd() == old(self).fwd(),
            if old(self).fwd() < old(self).bwd() {
                &&& final(self).bwd() == old(self).bwd() - 1
                &&& r == Some(old(self).remaining().last())
                &&& final(self).remaining() == old(self).remaining().drop_last()
            } else {
                &&& *final(self) == *old(self)
                &&& r is None
            },
    {
        if self.index_backward <= self.index_forward {
            return None;
        }
        self.index_backward = self.index_backward - 1;
        let result = self.ringbuffer.get_oldest(self.index_backward);
        proof {
            vstd::arithmetic::div_mod::lemma_small_mod(
                self.index_backward as nat,
                self.source().capacity() as nat,
            );
            assert(self.remaining() =~= old(self).remaining().drop_last());
        }
        Some(result)
    }

    /// Advances the forward cursor `n` extra steps, then acts as one call of
    /// [`Self::next`].
    pub fn nth(&mut self, n: usize) -> (r: Option<T>)
        requires
            old(self).well_formed(),
            old(self).fwd() + n <= usize::MAX,
        ensures
            final(self).well_formed(),
            final(self).source() == old(self).source(),
            final(self).bwd() == old(self).bwd(),
            if old(self).fwd() + n < old(self).bwd() {
                &&& final(self).fwd() == old(self).fwd() + n + 1
                &&& r == Some(old(self).source().logical()[old(self).fwd() + n])
            } else {
                &&& final(self).fwd() == old(self).fwd() + n
                &&& r is None
            },
    {
        self.index_forward = self.index_forward + n;
        self.next()
    }

    /// Retreats the backward cursor `n` extra steps, then acts as one call
    /// of [`Self::next_back`].
    pub fn nth_back(&mut self, n: usize) -> (r: Option<T>)
        requires
            old(self).well_formed(),
            n <= old(self).bwd(),
        ensures
            final(self).well_formed(),
            final(self).source() == old(self).source(),
            final(self).fwd() == old(self).fwd(),
            if old(self).fwd() < old(self).bwd() - n {
                &&& final(self).bwd() == old(self).bwd() - n - 1
                &&& r == Some(old(self).source().logical()[old(self).bwd() - n - 1])
            } else {
                &&& final(self).bwd() == old(self).bwd() - n
                &&& r is None
            },
    {
        self.index_backward = self.index_backward - n;
        self.next_back()
    }

    /// The exact number of logical elements the buffer holds, as the lower
    /// and upper bound of what a full walk yields.
    pub fn size_hint(&self) -> (r: (usize, Option<usize>))
        ensures
            r.0 as int == self.source().capacity(),
            r.1 == Some(r.0),
    {
        let n = self.ringbuffer.len();
        (n, Some(n))
    }

    /// The exact number of logical elements the buffer holds.
    pub fn len(&self) -> (n: usize)
        ensures
            n as int == self.source().capacity(),
    {
        self.ringbuffer.len()
    }
}

/// A mutable iterator: it takes the buffer over for its own lifetime, yields
/// each logical element once in either direction, lets the element most
/// recently yielded be overwritten in place, and hands the buffer back when
/// the walk is over.
pub struct RingBufferIterMut<T> {
    ringbuffer: RingBuffer<T>,
    index_forward: usize,
    index_backward: usize,
    cursor: Option<usize>,
}

impl<T> RingBufferIterMut<T> {
    /// The buffer being walked, with all writes so far applied.
    pub closed spec fn source(&self) -> RingBuffer<T> {
        self.ringbuffer
    }

    /// The logical age the forward cursor stands on.
    pub closed spec fn fwd(&self) -> int {
        self.index_forward as int
    }

    /// The logical age just past the backward cursor.
    pub closed spec fn bwd(&self) -> int {
        self.index_backward as int
    }

    /// The logical age of the element most recently yielded, if any.
    pub closed spec fn current(&self) -> Option<int> {
        match self.cursor {
            Some(c) => Some(c as int),
            None => None,
        }
    }

    /// Cursors as in the borrowing iterator, and the age most recently
    /// yielded keeps naming a logical element.
    pub open spec fn well_formed(&self) -> bool {
        &&& self.source().well_formed()
        &&& self.bwd() <= self.source().capacity()
        &&& self.source().capacity() <= usize::MAX as int / 2 + 1
        &&& match self.current() {
            Some(c) => 0 <= c < self.source().capacity(),
            None => true,
        }
    }

    /// The elements not yet consumed, in logical order.
    pub open spec fn remaining(&self) -> Seq<T> {
        if self.fwd() <= self.bwd() {
            self.source().logical().subrange(self.fwd(), self.bwd())
        } else {
            Seq::empty()
        }
    }
}

impl<T: Copy> RingBufferIterMut<T> {
    /// Takes the buffer over and starts a mutable walk over its logical
    /// order, oldest first.
    pub fn new(buf: RingBuffer<T>) -> (it: Self)
        requires
            buf.well_formed(),
            buf.capacity() <= usize::MAX as int / 2 + 1,
        ensures
            it.well_formed(),
            it.source() == buf,
            it.fwd() == 0,
            it.bwd() == buf.capacity(),
            it.current() is None,
            it.remaining() == buf.logical(),
    {
        let n = buf.len();
        let it = RingBufferIterMut {
            ringbuffer: buf,
            index_forward: 0,
            index_backward: n,
            cursor: None,
        };
        proof {
            assert(it.remaining() =~= it.source().logical());
        }
        it
    }

    /// Yields the oldest element not yet observed and advances the forward
    /// cursor, making that element the one a write overwrites; or reports
    /// exhaustion, leaving everything unchanged.
    pub fn next(&mut self) -> (r: Option<T>)
        requires
            old(self).well_formed(),
        ensures
            final(self).well_formed(),
            final(self).source() == old(self).source(),
            final(self).bwd() == old(self).bwd(),
            if old(self).fwd() < old(self).bwd() {
                &&& final(self).fwd() == old(self).fwd() + 1
                &&& final(self).current() == Some(old(self).fwd())
                &&& r == Some(old(self).remaining()[0])
                &&& final(self).remaining() == old(self).remaining().skip(1)
            } else {
                &&& *final(self) == *old(self)
                &&& r is None
            },
    {
        if self.index_forward >= self.index_backward {
            return None;
        }
        let result = self.ringbuffer.get_oldest(self.index_forward);
        proof {
            vstd::arithmetic::div_mod::lemma_small_mod(
                self.index_forward as nat,
                self.source().capacity() as nat,
            );
        }
        self.cursor = Some(self.index_forward);
        self.index_forward = self.index_forward + 1;
        proof {
            assert(self.remaining() =~= old(self).remaining().skip(1));
        }
        Some(result)
    }

    /// Yields the newest element not yet observed and retreats the backward
    /// cursor, making that element the one a write overwrites; or reports
    /// exhaustion, leaving everything unchanged.
    pub fn next_back(&mut self) -> (r: Option<T>)
        requires
            old(self).well_formed(),
        ensures
            final(self).well_formed(),
            final(self).source() == old(self).source(),
            final(self).fwd() == old(self).fwd(),
            if old(self).fwd() < old(self).bwd() {
                &&& final(self).bwd() == old(self).bwd() - 1
                &&& final(self).current() == Some(old(self).bwd() - 1)
                &&& r == Some(old(self).remaining().last())
                &&& final(self).remaining() == old(self).remaining().drop_last()
            } else {
                &&& *final(self) == *old(self)
                &&& r is None
            },
    {
        if self.index_backward <= self.index_forward {
            return None;
        }
        self.index_backward = self.index_backward - 1;
        let result = self.ringbuffer.get_oldest(self.index_backward);
        proof {
            vstd::arithmetic::div_mod::lemma_small_mod(
                self.index_backward as nat,
                self.source().capacity() as nat,
            );
            assert(self.remaining() =~= old(self).remaining().drop_last());
        }
        self.cursor = Some(self.index_backward);
        Some(result)
    }

    /// Advances the forward cursor `n` extra steps, then acts as one call of
    /// [`Self::next`].
    pub fn nth(&mut self, n: usize) -> (r: Option<T>)
        requires
            old(self).well_formed(),
            old(self).fwd() + n <= usize::MAX,
        ensures
            final(self).well_formed(),
            final(self).source() == old(self).source(),
            final(self).bwd() == old(self).bwd(),
            if old(self).fwd() + n < old(self).bwd() {
                &&& final(self).fwd() == old(self).fwd() + n + 1
                &&& final(self).current() == Some(old(self).fwd() + n)
                &&& r == Some(old(self).source().logical()[old(self).fwd() + n])
            } else {
                &&& final(self).fwd() == old(self).fwd() + n
                &&& r is None
            },
    {
        self.index_forward = self.index_forward + n;
        self.next()
    }

    /// Retreats the backward cursor `n` extra steps, then acts as one call
    /// of [`Self::next_back`].
    pub fn nth_back(&mut self, n: usize) -> (r: Option<T>)
        requires
            old(self).well_formed(),
            n <= old(self).bwd(),
        ensures
            final(self).well_formed(),
            final(self).source() == old(self).source(),
            final(self).fwd() == old(self).fwd(),
            if old(self).fwd() < old(self).bwd() - n {
                &&& final(self).bwd() == old(self).bwd() - n - 1
                &&& final(self).current() == Some(old(self).bwd() - n - 1)
                &&& r == Some(old(self).source().logical()[old(self).bwd() - n - 1])
            } else {
                &&& final(self).bwd() == old(self).bwd() - n
                &&& r is None
            },
    {
        self.index_backward = self.index_backward - n;
        self.next_back()
    }

    /// Overwrites the element most recently yielded; the cursors do not
    /// move, so the walk continues as if the element had held `value` all
    /// along.
    pub fn write(&mut self, value: T)
        requires
            old(self).well_formed(),
            old(self).current() is Some,
        ensures
            final(self).well_formed(),
            final(self).fwd() == old(self).fwd(),
            final(self).bwd() == old(self).bwd(),
            final(self).current() == old(self).current(),
            final(self).source().capacity() == old(self).source().capacity(),
            final(self).source().head_index() == old(self).source().head_index(),
            final(self).source().logical() == old(self).source().logical().update(
                old(self).current()->Some_0,
                value,
            ),
    {
        let c = match self.cursor {
            Some(c) => c,
            None => 0,
        };
        self.ringbuffer.set_oldest(c, value);
        proof {
            vstd::arithmetic::div_mod::lemma_small_mod(
                c as nat,
                self.source().capacity() as nat,
            );
        }
    }

    /// The exact number of logical elements the buffer holds, as the lower
    /// and upper bound of what a full walk yields.
    pub fn size_hint(&self) -> (r: (usize, Option<usize>))
        ensures
            r.0 as int == self.source().capacity(),
            r.1 == Some(r.0),
    {
        let n = self.ringbuffer.len();
        (n, Some(n))
    }

    /// The exact number of logical elements the buffer holds.
    pub fn len(&self) -> (n: usize)
        ensures
            n as int == self.source().capacity(),
    {
        self.ringbuffer.len()
    }

    /// Ends the walk and hands the buffer back, writes included.
    pub fn finish(self) -> (buf: RingBuffer<T>)
        ensures
            buf == self.source(),
    {
        self.ringbuffer
    }
}

impl<T: Copy> RingBuffer<T> {
    /// Starts a borrowing walk over the logical order, oldest first.
    pub fn iter(&self) -> (it: RingBufferIter<'_, T>)
        requires
            self.well_formed(),
            self.capacity() <= usize::MAX as int / 2 + 1,
        ensures
            it.well_formed(),
            it.source() == *self,
            it.fwd() == 0,
            it.bwd() == self.capacity(),
            it.remaining() == self.logical(),
    {
        let it = RingBufferIter { ringbuffer: self, index_forward: 0, index_backward: self.len() };
        proof {
            assert(it.remaining() =~= self.logical());
        }
        it
    }

    /// Consumes the buffer and starts an owning walk over its logical order,
    /// oldest first.
    pub fn into_iter(self) -> (it: RingBufferIntoIter<T>)
        requires
            self.well_formed(),
            self.capacity() <= usize::MAX as int / 2 + 1,
        ensures
            it.well_formed(),
            it.source() == self,
            it.fwd() == 0,
            it.bwd() == self.capacity(),
            it.remaining() == self.logical(),
    {
        let n = self.len();
        let it = RingBufferIntoIter { ringbuffer: self, index_forward: 0, index_backward: n };
        proof {
            assert(it.remaining() =~= it.source().logical());
        }
        it
    }

    /// Takes the buffer over and starts a mutable walk over its logical
    /// order, oldest first; [`RingBufferIterMut::finish`] hands it back.
    pub fn iter_mut(self) -> (it: RingBufferIterMut<T>)
        requires
            self.well_formed(),
            self.capacity() <= usize::MAX as int / 2 + 1,
        ensures
            it.well_formed(),
            it.source() == self,
            it.fwd() == 0,
            it.bwd() == self.capacity(),
            it.current() is None,
            it.remaining() == self.logical(),
    {
        RingBufferIterMut::new(self)
    }
}

} // verus!
