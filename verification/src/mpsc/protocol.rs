//! The channel's protocol as a transition system.
//!
//! A state holds what the threads share (the cells with their flags, the two
//! cursors, the handles) and where each thread stands inside its current
//! call. A step is one access to shared memory by one thread, so a run of the
//! system is any interleaving of the threads' accesses, each of which takes
//! effect for all threads at once. The steps compute slots and fullness with
//! the functions that the executable ring uses.
//!
//! Next to the real state stands a record that no thread reads: every claim
//! ever made, in the order of the cursor; every value the consumer took; and
//! for each sender the pushes it was told had succeeded. What the channel
//! promises is stated over that record.

use crate::mpsc::cursor::{is_power_of_two, slot_of, successor};
use crate::mpsc::error::TryRecvError;
use crate::mpsc::ring_buf::Push;
use crate::mpsc::{empty_reason, is_alone};
use vstd::prelude::*;

verus! {

/// One cell of the ring: what rests in it, and its occupancy flag.
pub struct CellState<T> {
    pub value: Option<T>,
    pub occupied: bool,
}

/// One entry of the record of claims: who won the cursor, and with what value.
pub struct Claim<T> {
    pub owner: nat,
    pub value: T,
}

/// One entry of a sender's record: a push that ended in `Done`, with the
/// cursor it had won.
pub struct Ack<T> {
    pub ticket: nat,
    pub value: T,
}

/// Where a sender stands inside a pass over the ring.
pub enum Producer<T> {
    /// Between two passes.
    Idle,
    /// Has loaded `head`; will load the flag of the slot it names.
    Aimed { value: T, head: usize },
    /// Found the slot occupied; will load `tail`.
    Blocked { value: T, head: usize },
    /// Found the slot empty; will try to move `head` on.
    Poised { value: T, head: usize },
    /// Has won the cursor `ticket`; will write the value into its slot.
    Owning { value: T, head: usize, ticket: nat },
    /// Has written the value; will set the flag.
    Filled { value: T, head: usize, ticket: nat },
}

/// Where the receiver stands inside an attempt to take a value.
pub enum Consumer<T> {
    /// Between two attempts.
    Idle,
    /// Found the slot at `tail` occupied; will move the value out.
    Reading,
    /// Has the value; will clear the flag.
    Freeing { value: Option<T> },
    /// Has cleared the flag; will move `tail` on and return the value.
    Stepping { value: Option<T> },
    /// Found nothing; will count the handles to tell why. `alone` records
    /// whether the receiver was the only handle when it looked at the ring.
    Missed { alone: bool },
}

/// A state of the whole channel.
#[verifier::ext_equal]
pub struct State<T> {
    /// The number of cells.
    pub cap: usize,
    pub cells: Seq<CellState<T>>,
    pub head: usize,
    pub tail: usize,
    /// The live senders, by name, each with its place in its pass.
    pub producers: Map<nat, Producer<T>>,
    /// The receiver's place in its attempt; `None` once it is dropped.
    pub consumer: Option<Consumer<T>>,
    /// Record: all claims so far; the index of a claim is its ticket.
    pub claims: Seq<Claim<T>>,
    /// Record: all values that attempts of the receiver have returned.
    pub received: Seq<Option<T>>,
    /// Record: for each sender that ever lived, its acknowledged pushes.
    pub sent: Map<nat, Seq<Ack<T>>>,
}

/// One access to shared memory by one thread, or the birth or death of a
/// handle.
pub enum Step<T> {
    /// A sender starts a pass with `value` and loads `head`.
    Aim { who: nat, value: T },
    /// It loads the flag of the slot that its copy of `head` names.
    Look { who: nat },
    /// Having found it occupied, it loads `tail` and ends the pass: `Full`
    /// if its copy of `head` is a whole ring ahead, `Contended` if not.
    Measure { who: nat },
    /// Having found it empty, it tries to move `head` from its copy to the
    /// successor. If `head` has moved meanwhile the pass ends `Contended`.
    Claim { who: nat },
    /// Having won the cursor, it writes the value into the slot.
    Write { who: nat },
    /// It sets the flag, and the pass ends `Done`.
    Publish { who: nat },
    /// The receiver loads `tail` and the flag of the slot it names. If the
    /// flag is clear it has found nothing.
    Peek,
    /// It moves the value out of the slot.
    Take,
    /// It clears the flag.
    Free,
    /// It moves `tail` on, and the attempt ends with the value, if the cell
    /// held one.
    Advance,
    /// Having found nothing, it counts the handles, and the attempt ends
    /// `Disconnected` if it is the only one, `Empty` if not.
    Count,
    /// The sender `from` is cloned; the new sender is called `fresh`.
    CloneSender { from: nat, fresh: nat },
    /// A sender is dropped.
    DropSender { who: nat },
    /// The receiver is dropped.
    DropReceiver,
}

impl<T> Producer<T> {
    /// The cursor that the sender has won and not yet published.
    pub open spec fn ticket(self) -> Option<nat> {
        match self {
            Producer::Owning { ticket, .. } => Some(ticket),
            Producer::Filled { ticket, .. } => Some(ticket),
            _ => None,
        }
    }
}

impl<T> State<T> {
    /// The state that `bounded(cap)` leaves: an empty ring, one sender
    /// (called 0) and the receiver, both at rest.
    pub open spec fn init(cap: usize) -> State<T> {
        State {
            cap,
            cells: Seq::new(cap as nat, |i: int| CellState { value: None, occupied: false }),
            head: 0,
            tail: 0,
            producers: Map::empty().insert(0nat, Producer::Idle),
            consumer: Some(Consumer::Idle),
            claims: Seq::empty(),
            received: Seq::empty(),
            sent: Map::empty().insert(0nat, Seq::empty()),
        }
    }

    /// The number of handles on the ring: what a handle reads when it looks
    /// for its peer.
    pub open spec fn holders(self) -> nat {
        self.producers.dom().len() + if self.consumer is Some { 1nat } else { 0nat }
    }

    /// The number of cursors whose slot the receiver has given back.
    pub open spec fn popped(self) -> nat {
        if self.consumer matches Some(Consumer::Stepping { .. }) {
            self.received.len() + 1
        } else {
            self.received.len()
        }
    }

    /// The value that the receiver has moved out of its cell and not yet
    /// returned from its attempt.
    pub open spec fn in_transit(self) -> Option<Option<T>> {
        match self.consumer {
            Some(Consumer::Freeing { value }) => Some(value),
            Some(Consumer::Stepping { value }) => Some(value),
            _ => None,
        }
    }

    /// The number of values claimed and not yet given back by the receiver.
    pub open spec fn outstanding(self) -> int {
        self.claims.len() - self.popped()
    }

    /// The cell that a cursor names.
    pub open spec fn cell_at(self, cursor: usize) -> CellState<T> {
        self.cells[slot_of(cursor, self.cap)]
    }

    /// The state with the cell that `cursor` names replaced.
    pub open spec fn with_cell(self, cursor: usize, cell: CellState<T>) -> State<T> {
        State { cells: self.cells.update(slot_of(cursor, self.cap), cell), ..self }
    }

    /// The state with the sender `who` moved to `place`.
    pub open spec fn with_producer(self, who: nat, place: Producer<T>) -> State<T> {
        State { producers: self.producers.insert(who, place), ..self }
    }

    /// Whether the step can be taken in this state.
    pub open spec fn enabled(self, step: Step<T>) -> bool {
        match step {
            Step::Aim { who, .. } => self.producers.dom().contains(who)
                && self.producers[who] is Idle,
            Step::Look { who } => self.producers.dom().contains(who)
                && self.producers[who] is Aimed,
            Step::Measure { who } => self.producers.dom().contains(who)
                && self.producers[who] is Blocked,
            Step::Claim { who } => self.producers.dom().contains(who)
                && self.producers[who] is Poised,
            Step::Write { who } => self.producers.dom().contains(who)
                && self.producers[who] is Owning,
            Step::Publish { who } => self.producers.dom().contains(who)
                && self.producers[who] is Filled,
            Step::Peek => self.consumer == Some(Consumer::<T>::Idle),
            Step::Take => self.consumer == Some(Consumer::<T>::Reading),
            Step::Free => self.consumer matches Some(Consumer::Freeing { .. }),
            Step::Advance => self.consumer matches Some(Consumer::Stepping { .. }),
            Step::Count => self.consumer matches Some(Consumer::Missed { .. }),
            Step::CloneSender { from, fresh } => self.producers.dom().contains(from)
                && !self.producers.dom().contains(fresh) && !self.sent.dom().contains(fresh),
            Step::DropSender { who } => self.producers.dom().contains(who)
                && self.producers[who] is Idle,
            Step::DropReceiver => self.consumer == Some(Consumer::<T>::Idle),
        }
    }

    /// Whether a `Claim` by `who` would find `head` where it last saw it.
    pub open spec fn claim_wins(self, who: nat) -> bool {
        self.producers[who] matches Producer::Poised { head, .. } && head == self.head
    }

    /// The state after the step.
    pub open spec fn apply(self, step: Step<T>) -> State<T> {
        match step {
            Step::Aim { who, value } => self.with_producer(
                who,
                Producer::Aimed { value, head: self.head },
            ),
            Step::Look { who } => match self.producers[who] {
                Producer::Aimed { value, head } => if self.cell_at(head).occupied {
                    self.with_producer(who, Producer::Blocked { value, head })
                } else {
                    self.with_producer(who, Producer::Poised { value, head })
                },
                _ => self,
            },
            Step::Measure { who } => self.with_producer(who, Producer::Idle),
            Step::Claim { who } => match self.producers[who] {
                Producer::Poised { value, head } => if head == self.head {
                    State {
                        head: successor(head),
                        claims: self.claims.push(Claim { owner: who, value }),
                        ..self
                    }.with_producer(
                        who,
                        Producer::Owning { value, head, ticket: self.claims.len() },
                    )
                } else {
                    self.with_producer(who, Producer::Idle)
                },
                _ => self,
            },
            Step::Write { who } => match self.producers[who] {
                Producer::Owning { value, head, ticket } => self.with_cell(
                    head,
                    CellState { value: Some(value), ..self.cell_at(head) },
                ).with_producer(who, Producer::Filled { value, head, ticket }),
                _ => self,
            },
            Step::Publish { who } => match self.producers[who] {
                Producer::Filled { value, head, ticket } => State {
                    sent: self.sent.insert(who, self.sent[who].push(Ack { ticket, value })),
                    ..self.with_cell(head, CellState { occupied: true, ..self.cell_at(head) })
                }.with_producer(who, Producer::Idle),
                _ => self,
            },
            Step::Peek => if self.cell_at(self.tail).occupied {
                State { consumer: Some(Consumer::Reading), ..self }
            } else {
                State {
                    consumer: Some(Consumer::Missed { alone: is_alone(self.holders()) }),
                    ..self
                }
            },
            Step::Take => State {
                consumer: Some(Consumer::Freeing { value: self.cell_at(self.tail).value }),
                ..self.with_cell(self.tail, CellState { value: None, ..self.cell_at(self.tail) })
            },
            Step::Free => match self.consumer {
                Some(Consumer::Freeing { value }) => State {
                    consumer: Some(Consumer::Stepping { value }),
                    ..self.with_cell(
                        self.tail,
                        CellState { occupied: false, ..self.cell_at(self.tail) },
                    )
                },
                _ => self,
            },
            Step::Advance => match self.consumer {
                Some(Consumer::Stepping { value }) => State {
                    consumer: if value is Some {
                        Some(Consumer::Idle)
                    } else {
                        Some(Consumer::Missed { alone: false })
                    },
                    tail: successor(self.tail),
                    received: self.received.push(value),
                    ..self
                },
                _ => self,
            },
            Step::Count => State { consumer: Some(Consumer::Idle), ..self },
            Step::CloneSender { from, fresh } => State {
                producers: self.producers.insert(fresh, Producer::Idle),
                sent: self.sent.insert(fresh, Seq::empty()),
                ..self
            },
            Step::DropSender { who } => State { producers: self.producers.remove(who), ..self },
            Step::DropReceiver => State { consumer: None, ..self },
        }
    }

    /// How the pass of a sender ends, if the step ends one.
    pub open spec fn pass_outcome(self, step: Step<T>) -> Option<Push<T>> {
        match step {
            Step::Measure { who } => match self.producers[who] {
                Producer::Blocked { value, head } => Some(
                    Push::when_occupied(head, self.tail, self.cap, value),
                ),
                _ => None,
            },
            Step::Claim { who } => match self.producers[who] {
                Producer::Poised { value, head } => if head == self.head {
                    None
                } else {
                    Some(Push::Contended(value))
                },
                _ => None,
            },
            Step::Publish { who } => Some(Push::Done),
            _ => None,
        }
    }

    /// What the receiver's look into the ring comes back with, if the step
    /// ends the look.
    pub open spec fn pop_outcome(self, step: Step<T>) -> Option<Option<T>> {
        match step {
            Step::Peek => if self.cell_at(self.tail).occupied {
                None
            } else {
                Some(None)
            },
            Step::Advance => match self.consumer {
                Some(Consumer::Stepping { value }) => Some(value),
                _ => None,
            },
            _ => None,
        }
    }

    /// What the attempt of the receiver returns, if the step ends one.
    pub open spec fn attempt_outcome(self, step: Step<T>) -> Option<Result<T, TryRecvError>> {
        match step {
            Step::Advance => match self.consumer {
                Some(Consumer::Stepping { value: Some(value) }) => Some(Ok(value)),
                _ => None,
            },
            Step::Count => Some(Err(empty_reason(self.holders()))),
            _ => None,
        }
    }

    /// Whether a sender that counts the handles now, as the first step of a
    /// send does, finds the receiver gone and ends the send with the error.
    pub open spec fn sender_finds_receiver_gone(self) -> bool {
        is_alone(self.holders())
    }

    /// The step is a claim that succeeds although as many values as the ring
    /// has cells are claimed and not yet given back: the winner gets a slot
    /// that is not free.
    pub open spec fn overruns(self, step: Step<T>) -> bool {
        step matches Step::Claim { who } && self.claim_wins(who) && self.outstanding()
            >= self.cap
    }
}

/// `post` follows from `pre` by `step`.
pub open spec fn next<T>(pre: State<T>, post: State<T>, step: Step<T>) -> bool {
    pre.enabled(step) && post == pre.apply(step)
}

/// The capacities that a channel can have.
pub open spec fn valid_capacity(cap: usize) -> bool {
    is_power_of_two(cap as int)
}

} // verus!
