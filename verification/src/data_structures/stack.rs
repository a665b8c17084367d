//! A growable last-in-first-out buffer with explicit capacity and fallible
//! allocation.
//!
//! The buffer owns a block of `capacity` element slots, of which the first
//! `size` hold live values. Pushing into a full buffer first moves the live
//! values, in order, into a larger block. Every request for memory can fail;
//! a failed request leaves the buffer exactly as it was.

use vstd::prelude::*;

verus! {

/// Number of slots added to the block each time a full buffer grows.
pub const GROWTH_STEP: usize = 2;

/// Why an operation on a [`Stack`] did not take place.
#[derive(Debug, Clone, Copy, PartialEq, Eq, Structural)]
pub enum StackError {
    /// The allocator could not provide the requested block, or the requested
    /// number of slots cannot be expressed.
    AllocationFailure,
}

/// The mathematical content of a [`Stack`]: its live values, bottom first,
/// and the number of slots of its block.
pub struct StackModel<T> {
    pub items: Seq<T>,
    pub capacity: nat,
}

impl<T> StackModel<T> {
    /// A model with no live value and a block of `capacity` slots.
    pub open spec fn empty(capacity: nat) -> Self {
        StackModel { items: Seq::empty(), capacity }
    }

    /// The number of live values.
    pub open spec fn size(self) -> nat {
        self.items.len()
    }

    /// No more live values than slots.
    pub open spec fn wf(self) -> bool {
        self.items.len() <= self.capacity
    }

    /// Every slot holds a live value.
    pub open spec fn is_full(self) -> bool {
        self.items.len() == self.capacity
    }

    /// The same live values in a block of `new_capacity` slots.
    pub open spec fn grown(self, new_capacity: nat) -> Self {
        StackModel { items: self.items, capacity: new_capacity }
    }

    /// The model after a successful push of `value`: a full block is first
    /// enlarged by [`GROWTH_STEP`] slots.
    pub open spec fn push(self, value: T) -> Self {
        StackModel {
            items: self.items.push(value),
            capacity: if self.is_full() {
                self.capacity + GROWTH_STEP as nat
            } else {
                self.capacity
            },
        }
    }

    /// The value that a pop hands out: the one pushed last, if there is any.
    pub open spec fn top(self) -> Option<T> {
        if self.items.len() == 0 {
            None
        } else {
            Some(self.items.last())
        }
    }

    /// The model after a pop: without its top value; unchanged when empty.
    pub open spec fn pop(self) -> Self {
        if self.items.len() == 0 {
            self
        } else {
            StackModel { items: self.items.drop_last(), capacity: self.capacity }
        }
    }
}

/// A last-in-first-out buffer of `T` with an explicitly managed block of
/// slots.
pub struct Stack<T> {
    /// Number of slots of the block.
    capacity: usize,
    /// The live values, bottom first.
    data: Vec<T>,
}

impl<T> View for Stack<T> {
    type V = StackModel<T>;

    closed spec fn view(&self) -> StackModel<T> {
        StackModel { items: self.data@, capacity: self.capacity as nat }
    }
}

impl<T> Stack<T> {
    /// What [`Stack::new`] returns once the allocator has answered the request
    /// for a block of `capacity` slots: `reserved` tells whether `block` has
    /// them.
    pub fn from_block(block: Vec<T>, capacity: usize, reserved: bool) -> (result: Result<
        Stack<T>,
        StackError,
    >)
        requires
            block@.len() == 0,
        ensures
            reserved ==> result is Ok && result->Ok_0@ == StackModel::<T>::empty(capacity as nat),
            !reserved ==> result == Err::<Stack<T>, StackError>(StackError::AllocationFailure),
    {
        if reserved {
            assert(block@ =~= Seq::<T>::empty());
            Ok(Stack { capacity, data: block })
        } else {
            Err(StackError::AllocationFailure)
        }
    }

    /// Creates an empty buffer with a block of `capacity` slots.
    ///
    /// With `capacity == 0` nothing is requested from the allocator and the
    /// call succeeds. Otherwise one block is requested; if the allocator
    /// refuses, the call fails and no buffer exists.
    pub fn new(capacity: usize) -> (result: Result<Stack<T>, StackError>)
        ensures
            match result {
                Ok(stack) => stack@ == StackModel::<T>::empty(capacity as nat),
                Err(e) => e == StackError::AllocationFailure && capacity > 0,
            },
    {
        let mut block: Vec<T> = Vec::new();
        let reserved = if capacity > 0 {
            block.try_reserve(capacity).is_ok()
        } else {
            true
        };
        Stack::from_block(block, capacity, reserved)
    }

    /// What [`Stack::grow`] does once the allocator has answered the request
    /// for a block of `new_capacity` slots: `reserved` tells whether `block`
    /// has them.
    ///
    /// On success the live values move, in order, into `block`, which becomes
    /// the buffer's block; the old block is released afterwards. On failure
    /// the buffer keeps its block, its values and its capacity.
    pub fn adopt_block(&mut self, block: Vec<T>, new_capacity: usize, reserved: bool) -> (result:
        Result<(), StackError>)
        requires
            old(self)@.wf(),
            block@.len() == 0,
            new_capacity > old(self)@.capacity,
        ensures
            reserved ==> result is Ok && final(self)@ == old(self)@.grown(new_capacity as nat),
            !reserved ==> result == Err::<(), StackError>(StackError::AllocationFailure)
                && final(self)@ == old(self)@,
    {
        if reserved {
            let ghost before = self.data@;
            let mut block = block;
            block.append(&mut self.data);
            assert(block@ =~= before);
            self.data = block;
            self.capacity = new_capacity;
            Ok(())
        } else {
            Err(StackError::AllocationFailure)
        }
    }

    /// Replaces the block by one of `new_capacity` slots, keeping every live
    /// value and their order.
    ///
    /// Fails, and changes nothing, if the allocator refuses the new block.
    pub fn grow(&mut self, new_capacity: usize) -> (result: Result<(), StackError>)
        requires
            old(self)@.wf(),
            new_capacity > old(self)@.capacity,
        ensures
            match result {
                Ok(()) => final(self)@ == old(self)@.grown(new_capacity as nat),
                Err(e) => e == StackError::AllocationFailure && final(self)@ == old(self)@,
            },
    {
        let mut block: Vec<T> = Vec::new();
        let reserved = block.try_reserve(new_capacity).is_ok();
        self.adopt_block(block, new_capacity, reserved)
    }

    /// Pushes `value` on top.
    ///
    /// A buffer that is not full takes the value without asking for memory,
    /// so the call succeeds. A full buffer first grows by [`GROWTH_STEP`]
    /// slots; if that fails, or if the new number of slots is beyond
    /// `usize::MAX`, the call fails, the buffer is as before and `value` is
    /// gone.
    pub fn insert(&mut self, value: T) -> (result: Result<(), StackError>)
        requires
            old(self)@.wf(),
        ensures
            match result {
                Ok(()) => final(self)@ == old(self)@.push(value),
                Err(e) => e == StackError::AllocationFailure && final(self)@ == old(self)@
                    && old(self)@.is_full(),
            },
            !old(self)@.is_full() ==> result is Ok,
            final(self)@.wf(),
    {
        if self.data.len() == self.capacity {
            let new_capacity = match self.capacity.checked_add(GROWTH_STEP) {
                Some(c) => c,
                None => {
                    return Err(StackError::AllocationFailure);
                },
            };
            match self.grow(new_capacity) {
                Ok(()) => {},
                Err(e) => {
                    return Err(e);
                },
            }
        }
        self.data.push(value);
        Ok(())
    }

    /// Pops the top value: the one pushed last among those still in the
    /// buffer, or `None` if the buffer is empty. The capacity stays.
    pub fn delete(&mut self) -> (result: Option<T>)
        requires
            old(self)@.wf(),
        ensures
            result == old(self)@.top(),
            final(self)@ == old(self)@.pop(),
            final(self)@.wf(),
    {
        let result = self.data.pop();
        assert(self.data@ =~= old(self)@.pop().items);
        result
    }

    /// Tears the buffer down: finalizes each live value, top first, and then
    /// releases the block. Returns the number of values finalized.
    ///
    /// The buffer is consumed, so nothing can use it afterwards.
    pub fn drop(self) -> (finalized: usize)
        ensures
            finalized == self@.size(),
    {
        let mut block = self.data;
        let ghost total = block.len();
        let mut finalized: usize = 0;
        while block.len() > 0
            invariant
                finalized + block.len() == total,
            decreases block.len(),
        {
            let _ = block.pop();
            finalized = finalized + 1;
        }
        finalized
    }

    /// The number of live values.
    pub fn size(&self) -> (n: usize)
        ensures
            n == self@.size(),
    {
        self.data.len()
    }

    /// The number of slots of the block.
    pub fn capacity(&self) -> (n: usize)
        ensures
            n == self@.capacity,
    {
        self.capacity
    }
}

/// One operation on a buffer that did not fail, as the laws below count
/// them. A failed operation changes nothing and so needs no case.
pub enum StackOp<T> {
    /// A push of the given value.
    Push(T),
    /// A pop, whether or not the buffer held a value.
    Pop,
    /// A growth to the given number of slots.
    Grow(nat),
}

impl<T> StackModel<T> {
    /// The model after pushing `values` one by one, first to last.
    pub open spec fn push_all(self, values: Seq<T>) -> Self
        decreases values.len(),
    {
        if values.len() == 0 {
            self
        } else {
            self.push_all(values.drop_last()).push(values.last())
        }
    }

    /// The model after `n` pops.
    pub open spec fn pop_n(self, n: nat) -> Self
        decreases n,
    {
        if n == 0 {
            self
        } else {
            self.pop().pop_n((n - 1) as nat)
        }
    }

    /// What `n` pops in a row hand out, first pop first.
    pub open spec fn pop_results(self, n: nat) -> Seq<Option<T>>
        decreases n,
    {
        if n == 0 {
            Seq::empty()
        } else {
            seq![self.top()] + self.pop().pop_results((n - 1) as nat)
        }
    }

    /// The model after one operation.
    pub open spec fn step(self, op: StackOp<T>) -> Self {
        match op {
            StackOp::Push(value) => self.push(value),
            StackOp::Pop => self.pop(),
            StackOp::Grow(new_capacity) => if new_capacity > self.capacity {
                self.grown(new_capacity)
            } else {
                self
            },
        }
    }

    /// The model after the operations `ops`, first to last.
    pub open spec fn run(self, ops: Seq<StackOp<T>>) -> Self
        decreases ops.len(),
    {
        if ops.len() == 0 {
            self
        } else {
            self.run(ops.drop_last()).step(ops.last())
        }
    }

    /// How many of `ops` are pushes.
    pub open spec fn push_count(ops: Seq<StackOp<T>>) -> nat
        decreases ops.len(),
    {
        if ops.len() == 0 {
            0
        } else {
            Self::push_count(ops.drop_last()) + if ops.last() is Push {
                1nat
            } else {
                0nat
            }
        }
    }

    /// How many of `ops`, run from this model, are pops that hand out a
    /// value.
    pub open spec fn pop_count(self, ops: Seq<StackOp<T>>) -> nat
        decreases ops.len(),
    {
        if ops.len() == 0 {
            0
        } else {
            self.pop_count(ops.drop_last()) + if ops.last() is Pop && self.run(
                ops.drop_last(),
            ).size() > 0 {
                1nat
            } else {
                0nat
            }
        }
    }
}

/// The values `values`, last first, each as the result of a pop.
pub open spec fn reversed_pops<T>(values: Seq<T>) -> Seq<Option<T>> {
    Seq::new(values.len(), |i: int| Some(values[values.len() - 1 - i]))
}

/// Pushing keeps what was there and puts the new values on top, in order.
pub proof fn lemma_push_all_items<T>(s: StackModel<T>, values: Seq<T>)
    ensures
        s.push_all(values).items == s.items + values,
        s.wf() ==> s.push_all(values).wf(),
        s.push_all(values).capacity >= s.capacity,
        s.wf() && s.size() + values.len() <= s.capacity ==> s.push_all(values).capacity
            == s.capacity,
    decreases values.len(),
{
    if values.len() == 0 {
        assert(s.items + values =~= s.items);
    } else {
        lemma_push_all_items(s, values.drop_last());
        assert((s.items + values.drop_last()).push(values.last()) =~= s.items + values);
    }
}

/// Last in, first out: after pushing `values` one by one, as many pops hand
/// them back in reverse order and leave the live values that were there
/// before.
pub proof fn law_push_pop_order<T>(s: StackModel<T>, values: Seq<T>)
    ensures
        s.push_all(values).pop_results(values.len()) == reversed_pops(values),
        s.push_all(values).pop_n(values.len()).items == s.items,
    decreases values.len(),
{
    let n = values.len();
    if n == 0 {
        assert(s.push_all(values).pop_results(n) =~= reversed_pops(values));
    } else {
        let front = values.drop_last();
        let pushed = s.push_all(values);
        let before = s.push_all(front);
        law_push_pop_order(s, front);
        assert(pushed.top() == Some(values.last()));
        assert(pushed.pop().items =~= before.items);
        lemma_pops_depend_on_items(pushed.pop(), before, (n - 1) as nat);
        assert(pushed.pop_results(n) =~= reversed_pops(values));
    }
}

/// What pops hand out, and which values they leave, depends on the live
/// values alone, not on the capacity.
pub proof fn lemma_pops_depend_on_items<T>(a: StackModel<T>, b: StackModel<T>, n: nat)
    requires
        a.items == b.items,
    ensures
        a.pop_results(n) == b.pop_results(n),
        a.pop_n(n).items == b.pop_n(n).items,
    decreases n,
{
    if n > 0 {
        lemma_pops_depend_on_items(a.pop(), b.pop(), (n - 1) as nat);
    }
}

/// A pop on a buffer that was just created hands out nothing and changes
/// nothing, whatever its capacity.
pub proof fn law_empty_pop<T>(capacity: nat)
    ensures
        StackModel::<T>::empty(capacity).top() == None::<T>,
        StackModel::<T>::empty(capacity).pop() == StackModel::<T>::empty(capacity),
{
}

/// Growth keeps every value in place: a buffer created with `values.len()`
/// slots takes `values` without growing and is then full; one more push
/// grows it by [`GROWTH_STEP`] slots, and the pops that follow hand back
/// `extra` and then `values` in reverse order.
pub proof fn law_growth_keeps_values<T>(values: Seq<T>, extra: T)
    ensures
        forall|k: int|
            0 <= k < values.len() ==> !(#[trigger] StackModel::<T>::empty(values.len()).push_all(
                values.take(k),
            )).is_full(),
        StackModel::<T>::empty(values.len()).push_all(values) == (StackModel {
            items: values,
            capacity: values.len(),
        }),
        StackModel::<T>::empty(values.len()).push_all(values).push(extra) == (StackModel {
            items: values.push(extra),
            capacity: values.len() + GROWTH_STEP as nat,
        }),
        StackModel::<T>::empty(values.len()).push_all(values).push(extra).pop_results(
            values.len() + 1,
        ) == reversed_pops(values.push(extra)),
{
    let start = StackModel::<T>::empty(values.len());
    assert forall|k: int| 0 <= k < values.len() implies !(#[trigger] start.push_all(
        values.take(k),
    )).is_full() by {
        lemma_push_all_items(start, values.take(k));
        assert(start.items + values.take(k) =~= values.take(k));
    }
    lemma_push_all_items(start, values);
    assert(start.items + values =~= values);
    let all = values.push(extra);
    assert(all.drop_last() =~= values);
    assert(start.push_all(all) == start.push_all(values).push(extra));
    law_push_pop_order(start, all);
}

/// The capacity never decreases and the live values never outnumber the
/// slots, whatever pushes, pops and growths are made.
pub proof fn law_capacity_monotonic<T>(s: StackModel<T>, ops: Seq<StackOp<T>>)
    ensures
        s.run(ops).capacity >= s.capacity,
        s.wf() ==> s.run(ops).wf(),
    decreases ops.len(),
{
    if ops.len() > 0 {
        law_capacity_monotonic(s, ops.drop_last());
    }
}

/// The number of live values, which is what [`Stack::drop`] finalizes, is
/// the number of values that were there, plus the pushes, minus the pops
/// that handed out a value.
pub proof fn law_live_count<T>(s: StackModel<T>, ops: Seq<StackOp<T>>)
    ensures
        s.run(ops).size() + s.pop_count(ops) == s.size() + StackModel::<T>::push_count(ops),
    decreases ops.len(),
{
    if ops.len() > 0 {
        law_live_count(s, ops.drop_last());
    }
}

} // verus!
