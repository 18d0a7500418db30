//! The shared storage of a channel: a ring of slots that many producers fill
//! and one consumer empties, without a lock around the ring.
//!
//! Producers race for the `head` cursor with a compare-and-swap; the winner of
//! a cursor owns the slot it names until it has published the value there.
//! The occupancy flag of a slot carries the hand-over in both directions: a
//! producer stores it with release ordering after writing, the consumer loads
//! it with acquire ordering before reading, and the other way round when the
//! slot is freed. The cursors themselves need no ordering of their own.
//!
//! A claim looks at the flag of the slot and at nothing else. A slot that a
//! slow producer has claimed and not yet published is still flagged empty, so
//! a producer that comes round a whole ring later can claim it a second time,
//! and one of the two values is then lost. [`crate::mpsc::laws`] proves what
//! the channel promises of the runs in which no claim comes round like that,
//! and proves that none does while producers take turns.

use crate::mpsc::cursor::{
    distance, is_power_of_two, lapped, lemma_power_of_two_positive, next_cursor, slot_index,
};
use std::sync::atomic::{AtomicBool, AtomicUsize, Ordering};
use vstd::prelude::*;
use vstd::rwlock::{RwLock, RwLockPredicate};

verus! {

/// The predicate of a slot's cell: any value, or none, may rest there.
struct AnyValue;

impl<T> RwLockPredicate<Option<T>> for AnyValue {
    open spec fn inv(self, v: Option<T>) -> bool {
        true
    }
}

/// One cell of the ring: room for a value, and a flag that says whether a
/// value has been published there and not yet been read.
///
/// The claim protocol leaves the cell to one thread at a time, so the cell's
/// own guard is never waited for; it is what lets a value move through a
/// shared reference.
pub struct Slot<T> {
    data: RwLock<Option<T>, AnyValue>,
    empty: AtomicBool,
}

impl<T> Slot<T> {
    /// A slot with nothing in it, flagged empty.
    pub fn new() -> (slot: Self) {
        Slot { data: RwLock::new(None, Ghost(AnyValue)), empty: AtomicBool::new(true) }
    }

    /// Moves `value` into the cell, over whatever was there.
    fn write(&self, value: T) {
        let (_stale, guard) = self.data.acquire_write();
        guard.release_write(Some(value));
    }

    /// Moves the value out of the cell and leaves it bare.
    fn read(&self) -> (value: Option<T>) {
        let (value, guard) = self.data.acquire_write();
        guard.release_write(None);
        value
    }
}

/// How one pass of a producer over the ring ended.
pub enum Push<T> {
    /// The value was written to a claimed slot and published.
    Done,
    /// The ring was full; the value comes back.
    Full(T),
    /// Another thread was in the way: the slot was still held although the
    /// ring was not full, or the claim was lost to another producer. Nothing
    /// was changed; the value comes back, and a new pass may succeed.
    Contended(T),
}

impl<T> Push<T> {
    /// The value that was not enqueued, if the pass did not succeed.
    pub open spec fn rejected(self) -> Option<T> {
        match self {
            Push::Done => None,
            Push::Full(v) => Some(v),
            Push::Contended(v) => Some(v),
        }
    }

    /// How a pass ends that loaded `head`, found the slot it names occupied,
    /// and then loaded `tail`: the ring is full if `head` is a whole ring
    /// ahead of `tail`; if not, the slot is about to be freed or `head` has
    /// moved on.
    pub open spec fn when_occupied(head: usize, tail: usize, cap: usize, value: T) -> Push<T> {
        if distance(head, tail) >= cap {
            Push::Full(value)
        } else {
            Push::Contended(value)
        }
    }

    /// Ends a pass that met an occupied slot.
    pub fn blocked(head: usize, tail: usize, cap: usize, value: T) -> (outcome: Push<T>)
        ensures
            outcome == Self::when_occupied(head, tail, cap, value),
    {
        if lapped(head, tail, cap) {
            Push::Full(value)
        } else {
            Push::Contended(value)
        }
    }
}

/// Lock-free ring of a fixed power-of-two capacity, for many producers and a
/// single consumer.
pub struct RingBuf<T> {
    buf: Vec<Slot<T>>,
    // Next cursor that a producer may claim.
    head: AtomicUsize,
    mask: usize,
    // Next cursor that the consumer reads.
    tail: AtomicUsize,
}

impl<T> RingBuf<T> {
    #[verifier::type_invariant]
    spec fn well_formed(&self) -> bool {
        &&& is_power_of_two(self.buf@.len() as int)
        &&& self.mask == self.buf@.len() - 1
    }

    /// The number of slots.
    pub closed spec fn capacity(&self) -> nat {
        self.buf@.len()
    }

    /// A ring of `cap` empty slots, with both cursors at zero.
    pub fn new(cap: usize) -> (ring: Self)
        requires
            is_power_of_two(cap as int),
        ensures
            ring.capacity() == cap,
    {
        let mut buf: Vec<Slot<T>> = Vec::with_capacity(cap);
        while buf.len() < cap
            invariant
                buf@.len() <= cap,
            decreases cap - buf@.len(),
        {
            buf.push(Slot::new());
        }
        proof {
            lemma_power_of_two_positive(cap);
        }
        RingBuf { buf, head: AtomicUsize::new(0), mask: cap - 1, tail: AtomicUsize::new(0) }
    }

    /// The number of slots.
    pub fn slots(&self) -> (cap: usize)
        ensures
            cap == self.capacity(),
    {
        self.buf.len()
    }

    /// One pass of a producer: look at the slot that `head` names, and either
    /// report the ring full, give way, or claim the slot and publish `value`
    /// in it. Never waits. Whatever is not enqueued comes back unchanged.
    ///
    /// Each access to the ring is one step of [`crate::mpsc::protocol`]; the
    /// comments name them.
    pub fn push(&self, value: T) -> (outcome: Push<T>)
        ensures
            outcome.rejected() matches Some(v) ==> v == value,
    {
        let cap = self.buf.len();
        proof {
            use_type_invariant(self);
            lemma_power_of_two_positive(cap);
        }
        // Aim.
        let current_head = self.head.load(Ordering::Relaxed);
        let pos = slot_index(current_head, self.mask);
        let slot = &self.buf[pos];

        // Look.
        if !slot.empty.load(Ordering::Acquire) {
            // Measure. Occupied: either the ring is full, or the slot is
            // about to be freed, or `current_head` is already out of date.
            let tail_pos = self.tail.load(Ordering::Relaxed);
            return Push::blocked(current_head, tail_pos, cap, value);
        }
        // Claim: only the producer whose exchange succeeds goes on to write.
        match self.head.compare_exchange(
            current_head,
            next_cursor(current_head),
            Ordering::Release,
            Ordering::Relaxed,
        ) {
            Ok(_) => {
                // Write, then Publish.
                slot.write(value);
                slot.empty.store(false, Ordering::Release);
                Push::Done
            },
            Err(_) => Push::Contended(value),
        }
    }

    /// One attempt of the consumer: if the slot that `tail` names holds a
    /// published value, move it out, free the slot and step `tail`. Never
    /// waits. To be called by one thread at a time.
    ///
    /// Its accesses are the steps Peek, Take, Free and Advance of
    /// [`crate::mpsc::protocol`], in that order.
    pub fn pop(&self) -> (value: Option<T>) {
        let cap = self.buf.len();
        proof {
            use_type_invariant(self);
            lemma_power_of_two_positive(cap);
        }
        let pos = slot_index(self.tail.load(Ordering::Relaxed), self.mask);
        let slot = &self.buf[pos];

        if slot.empty.load(Ordering::Acquire) {
            return None;
        }
        let value = slot.read();
        slot.empty.store(true, Ordering::Release);
        self.tail.fetch_add(1, Ordering::Relaxed);
        value
    }
}

} // verus!
