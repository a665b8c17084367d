//! A first-in-first-out queue on a ring of slots that grows when it is full.
//!
//! One slot of the ring always stays free, so a ring of `n` slots holds at
//! most `n - 1` items.

use vstd::arithmetic::div_mod::{lemma_mod_self_0, lemma_small_mod};
use vstd::prelude::*;

verus! {

/// Number of slots of a new ring.
pub const INITIAL_SLOTS: usize = 5;

/// Number of slots added when a full ring grows.
pub const SLOTS_STEP: usize = 5;

/// The slot that lies `offset` places after `head` on a ring of `slots`
/// slots.
pub open spec fn ring_index(head: int, offset: int, slots: int) -> int {
    if head + offset < slots {
        head + offset
    } else {
        head + offset - slots
    }
}

/// The number of places from `head` forward to `tail` on a ring of `slots`
/// slots.
pub open spec fn ring_distance(head: int, tail: int, slots: int) -> int {
    if tail >= head {
        tail - head
    } else {
        tail + slots - head
    }
}

/// A queue of `T`.
pub struct Queue<T> {
    /// Slot of the item that leaves next.
    head: usize,
    /// Slot that the next item goes to.
    tail: usize,
    /// The ring.
    data: Vec<Option<T>>,
}

impl<T> View for Queue<T> {
    type V = Seq<T>;

    /// The queued items, the one that leaves next first.
    closed spec fn view(&self) -> Seq<T> {
        Seq::new(
            ring_distance(self.head as int, self.tail as int, self.data@.len() as int) as nat,
            |i: int| self.data@[ring_index(self.head as int, i, self.data@.len() as int)]->Some_0,
        )
    }
}

impl<T> Queue<T> {
    /// The number of slots of the ring.
    pub closed spec fn slots(&self) -> nat {
        self.data@.len()
    }

    /// The ring has a slot, `head` and `tail` lie on it, and every slot from
    /// `head` up to `tail` holds an item.
    pub closed spec fn wf(&self) -> bool {
        &&& self.data@.len() >= 1
        &&& self.head < self.data@.len()
        &&& self.tail < self.data@.len()
        &&& forall|i: int|
            0 <= i < ring_distance(self.head as int, self.tail as int, self.data@.len() as int)
                ==> (#[trigger] self.data@[ring_index(
                self.head as int,
                i,
                self.data@.len() as int,
            )]) is Some
    }

    /// An empty queue on a ring of [`INITIAL_SLOTS`] slots.
    pub fn new() -> (queue: Self)
        ensures
            queue.wf(),
            queue@ == Seq::<T>::empty(),
            queue.slots() == INITIAL_SLOTS,
    {
        let mut data: Vec<Option<T>> = Vec::new();
        let mut i: usize = 0;
        while i < INITIAL_SLOTS
            invariant
                i <= INITIAL_SLOTS,
                data@.len() == i,
            decreases INITIAL_SLOTS - i,
        {
            data.push(None);
            i += 1;
        }
        let queue = Queue { head: 0, tail: 0, data };
        assert(queue@ =~= Seq::<T>::empty());
        queue
    }

    /// The number of slots of the ring.
    pub fn capacity(&self) -> (n: usize)
        ensures
            n == self.slots(),
    {
        self.data.len()
    }

    /// Whether the queue holds no item.
    pub fn is_empty(&self) -> (empty: bool)
        requires
            self.wf(),
        ensures
            empty == (self@.len() == 0),
    {
        self.head == self.tail
    }

    /// Whether every slot but one holds an item.
    pub fn is_full(&self) -> (full: bool)
        requires
            self.wf(),
        ensures
            full == (self@.len() + 1 == self.slots()),
    {
        proof {
            let slots = self.data@.len() as int;
            if self.tail + 1 == slots {
                lemma_mod_self_0(slots);
            } else {
                lemma_small_mod((self.tail + 1) as nat, slots as nat);
            }
        }
        let slots = self.data.len();
        (self.tail + 1) % slots == self.head
    }

    /// Moves the items of a full queue to a ring with [`SLOTS_STEP`] more
    /// slots, keeping their order.
    fn grow(&mut self)
        requires
            old(self).wf(),
            old(self)@.len() + 1 == old(self).slots(),
            old(self).slots() + SLOTS_STEP <= usize::MAX,
        ensures
            final(self).wf(),
            final(self)@ == old(self)@,
            final(self).slots() == old(self).slots() + SLOTS_STEP,
    {
        let current_capacity = self.data.len();
        let new_capacity = current_capacity + SLOTS_STEP;
        let mut new_data: Vec<Option<T>> = Vec::new();
        let mut k: usize = 0;
        while k < new_capacity
            invariant
                k <= new_capacity,
                new_data@.len() == k,
            decreases new_capacity - k,
        {
            new_data.push(None);
            k += 1;
        }
        let ghost before = self.data@;
        let head = self.head;
        let mut i: usize = 0;
        while i < current_capacity
            invariant
                i <= current_capacity,
                head < current_capacity,
                head == self.head,
                self.tail == old(self).tail,
                self.data@.len() == current_capacity,
                before.len() == current_capacity,
                new_data@.len() == new_capacity,
                new_capacity == current_capacity + SLOTS_STEP,
                forall|m: int|
                    0 <= m < i ==> #[trigger] new_data@[m] == before[ring_index(
                        head as int,
                        m,
                        current_capacity as int,
                    )],
                forall|m: int|
                    i <= m < current_capacity ==> self.data@[ring_index(
                        head as int,
                        m,
                        current_capacity as int,
                    )] == #[trigger] before[ring_index(head as int, m, current_capacity as int)],
            decreases current_capacity - i,
        {
            let source = if i < current_capacity - head {
                head + i
            } else {
                i - (current_capacity - head)
            };
            assert(source == ring_index(head as int, i as int, current_capacity as int));
            let item = self.data[source].take();
            new_data[i] = item;
            proof {
                assert forall|m: int| i + 1 <= m < current_capacity implies self.data@[ring_index(
                    head as int,
                    m,
                    current_capacity as int,
                )] == #[trigger] before[ring_index(head as int, m, current_capacity as int)] by {
                    assert(ring_index(head as int, m, current_capacity as int) != source);
                }
            }
            i += 1;
        }
        self.head = 0;
        self.tail = self.data.len() - 1;
        self.data = new_data;
        proof {
            assert forall|m: int|
                0 <= m < ring_distance(
                    self.head as int,
                    self.tail as int,
                    self.data@.len() as int,
                ) implies (#[trigger] self.data@[ring_index(
                self.head as int,
                m,
                self.data@.len() as int,
            )]) is Some by {
                assert(self.data@[m] == before[ring_index(
                    head as int,
                    m,
                    current_capacity as int,
                )]);
            }
            assert(self@ =~= old(self)@);
        }
    }

    /// Puts `item` at the back of the queue. A full ring grows first.
    pub fn enqueue(&mut self, item: T)
        requires
            old(self).wf(),
            old(self)@.len() + 1 == old(self).slots() ==> old(self).slots() + SLOTS_STEP
                <= usize::MAX,
        ensures
            final(self).wf(),
            final(self)@ == old(self)@.push(item),
            final(self).slots() == old(self).slots() + if old(self)@.len() + 1 == old(
                self,
            ).slots() {
                SLOTS_STEP as nat
            } else {
                0nat
            },
    {
        if self.is_full() {
            self.grow();
        }
        let ghost mid = *self;
        proof {
            let slots = self.data@.len() as int;
            if self.tail + 1 == slots {
                lemma_mod_self_0(slots);
            } else {
                lemma_small_mod((self.tail + 1) as nat, slots as nat);
            }
        }
        let tail = self.tail;
        self.data[tail] = Some(item);
        let slots = self.data.len();
        self.tail = (self.tail + 1) % slots;
        proof {
            let slots = self.data@.len() as int;
            let count = ring_distance(mid.head as int, mid.tail as int, slots);
            assert(ring_index(mid.head as int, count, slots) == mid.tail);
            assert forall|m: int|
                0 <= m < ring_distance(self.head as int, self.tail as int, slots) implies (
            #[trigger] self.data@[ring_index(self.head as int, m, slots)]) is Some by {
                if m < count {
                    assert(mid.data@[ring_index(mid.head as int, m, slots)] is Some);
                }
            }
            assert(self@ =~= mid@.push(item));
        }
    }

    /// Takes the item at the front of the queue, if there is one. The ring
    /// keeps its slots.
    pub fn dequeue(&mut self) -> (item: Option<T>)
        requires
            old(self).wf(),
        ensures
            final(self).wf(),
            final(self).slots() == old(self).slots(),
            old(self)@.len() == 0 ==> item == None::<T> && final(self)@ == old(self)@,
            old(self)@.len() > 0 ==> item == Some(old(self)@[0]) && final(self)@ == old(
                self,
            )@.drop_first(),
    {
        if self.is_empty() {
            return None;
        }
        proof {
            let slots = self.data@.len() as int;
            if self.head + 1 == slots {
                lemma_mod_self_0(slots);
            } else {
                lemma_small_mod((self.head + 1) as nat, slots as nat);
            }
            assert(self.data@[ring_index(self.head as int, 0, slots)] is Some);
        }
        let head = self.head;
        let item = self.data[head].take();
        let slots = self.data.len();
        self.head = (self.head + 1) % slots;
        proof {
            let slots = self.data@.len() as int;
            assert forall|m: int|
                0 <= m < ring_distance(self.head as int, self.tail as int, slots) implies (
            #[trigger] self.data@[ring_index(self.head as int, m, slots)]) is Some by {
                assert(ring_index(self.head as int, m, slots) == ring_index(
                    old(self).head as int,
                    m + 1,
                    slots,
                ));
                assert(old(self).data@[ring_index(old(self).head as int, m + 1, slots)] is Some);
            }
            assert forall|m: int| 0 <= m < self@.len() implies self@[m] == old(self)@.drop_first()[m] by {
                assert(ring_index(self.head as int, m, slots) == ring_index(
                    old(self).head as int,
                    m + 1,
                    slots,
                ));
            }
            assert(self@ =~= old(self)@.drop_first());
        }
        item
    }
}

} // verus!
