//! Bounded first-in first-out ring between a producer stage and a consumer
//! stage: `CAP` slots, a read position and a count of queued items.

use vstd::prelude::*;

verus! {

/// `n` is a power of two.
pub open spec fn power_of_two(n: nat) -> bool
    decreases n,
{
    if n <= 1 {
        n == 1
    } else {
        n % 2 == 0 && power_of_two(n / 2)
    }
}

/// The slot `k` places after `head` in a ring of `cap` slots.
pub open spec fn slot(head: int, k: int, cap: int) -> int {
    if head + k < cap {
        head + k
    } else {
        head + k - cap
    }
}

/// A ring of `CAP` slots holding at most `CAP` items.
pub struct SpscRing<T, const CAP: usize> {
    buf: Vec<Option<T>>,
    /// Slot of the oldest queued item.
    head: usize,
    /// Number of queued items.
    len: usize,
    items: Ghost<Seq<T>>,
}

impl<T, const CAP: usize> SpscRing<T, CAP> {
    /// The queued items, oldest first.
    pub closed spec fn queued(&self) -> Seq<T> {
        self.items@
    }

    /// Slots and positions are consistent: item `k` sits `k` slots after
    /// the read position.
    pub closed spec fn wf(&self) -> bool {
        &&& 0 < CAP
        &&& self.buf@.len() == CAP
        &&& self.head < CAP
        &&& self.len <= CAP
        &&& self.items@.len() == self.len
        &&& forall|k: int|
            0 <= k < self.len ==> #[trigger] self.buf@[slot(self.head as int, k, CAP as int)]
                == Some(self.items@[k])
    }

    /// An empty ring. `CAP` must be a power of two.
    pub fn new() -> (r: Self)
        requires
            power_of_two(CAP as nat),
        ensures
            r.wf(),
            r.queued() == Seq::<T>::empty(),
    {
        let mut buf: Vec<Option<T>> = Vec::with_capacity(CAP);
        let mut i: usize = 0;
        while i < CAP
            invariant
                i <= CAP,
                buf@.len() == i,
            decreases CAP - i,
        {
            buf.push(None);
            i = i + 1;
        }
        SpscRing { buf, head: 0, len: 0, items: Ghost(Seq::empty()) }
    }

    /// Producer side: queues `item` unless all `CAP` slots are taken.
    /// Returns whether it was queued.
    pub fn push(&mut self, item: T) -> (r: bool)
        requires
            old(self).wf(),
        ensures
            final(self).wf(),
            r == (old(self).queued().len() < CAP),
            r ==> final(self).queued() == old(self).queued().push(item),
            !r ==> final(self).queued() == old(self).queued(),
    {
        if self.len >= CAP {
            return false;
        }
        let room = CAP - self.head;
        let at = if self.len < room {
            self.head + self.len
        } else {
            self.len - room
        };
        let ghost before = self.buf@;
        let ghost items = self.items@;
        self.buf.set(at, Some(item));
        self.len = self.len + 1;
        self.items = Ghost(items.push(item));
        assert forall|k: int| 0 <= k < self.len implies #[trigger] self.buf@[slot(
            self.head as int,
            k,
            CAP as int,
        )] == Some(self.items@[k]) by {
            if k < self.len - 1 {
                assert(slot(self.head as int, k, CAP as int) != at);
                assert(before[slot(self.head as int, k, CAP as int)] == Some(items[k]));
            }
        }
        true
    }

    /// Consumer side: takes the oldest queued item, if any.
    pub fn pop(&mut self) -> (r: Option<T>)
        requires
            old(self).wf(),
        ensures
            final(self).wf(),
            old(self).queued().len() == 0 ==> r == None::<T>,
            old(self).queued().len() == 0 ==> final(self).queued() == old(self).queued(),
            old(self).queued().len() > 0 ==> r == Some(old(self).queued()[0]),
            old(self).queued().len() > 0 ==> final(self).queued() == old(self).queued().drop_first(),
    {
        if self.len == 0 {
            return None;
        }
        let ghost before = self.buf@;
        let ghost items = self.items@;
        let ghost old_head = self.head;
        assert(before[slot(old_head as int, 0, CAP as int)] == Some(items[0]));
        let item = self.buf[self.head].take();
        self.head = if self.head + 1 < CAP {
            self.head + 1
        } else {
            0
        };
        self.len = self.len - 1;
        self.items = Ghost(items.drop_first());
        assert forall|k: int| 0 <= k < self.len implies #[trigger] self.buf@[slot(
            self.head as int,
            k,
            CAP as int,
        )] == Some(self.items@[k]) by {
            assert(slot(self.head as int, k, CAP as int) == slot(old_head as int, k + 1, CAP as int));
            assert(slot(old_head as int, k + 1, CAP as int) != old_head);
            assert(before[slot(old_head as int, k + 1, CAP as int)] == Some(items[k + 1]));
        }
        item
    }
}

} // verus!
