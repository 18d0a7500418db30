//! What holds in every state of the protocol that is reached without a claim
//! overrunning the ring, and the proof that each step keeps it.

use crate::mpsc::cursor::{
    lemma_power_of_two_positive, lemma_same_slot, lemma_slot_of_word, lemma_successor_of_word,
    word,
};
use crate::mpsc::protocol::{
    next, valid_capacity, Ack, CellState, Claim, Consumer, Producer, State, Step,
};
use vstd::prelude::*;

verus! {

impl<T> State<T> {
    /// The place of `who` in its pass, if it has won a cursor that it has
    /// not yet published.
    pub open spec fn holding(self, who: nat) -> Option<Producer<T>> {
        if self.producers.dom().contains(who) && self.producers[who].ticket() is Some {
            Some(self.producers[who])
        } else {
            None
        }
    }

    /// The cursor `c` is claimed and its winner has not yet published it.
    pub open spec fn in_flight(self, c: int) -> bool {
        self.holding(self.claims[c].owner) matches Some(place) && place.ticket() == Some(
            c as nat,
        )
    }

    /// The value that the receiver has moved out of the cell at `tail` whose
    /// flag it has not yet cleared.
    pub open spec fn in_hand(self) -> Option<Option<T>> {
        match self.consumer {
            Some(Consumer::Freeing { value }) => Some(value),
            _ => None,
        }
    }

    /// The cell that the count `c` names.
    pub open spec fn cell_of(self, c: int) -> CellState<T> {
        self.cells[c % (self.cap as int)]
    }

    /// The cell of an outstanding cursor is in step with the record: clear
    /// while the winner works on it, and from then on flagged and holding
    /// the claimed value, until the receiver has moved it out.
    pub open spec fn cursor_ok(self, c: int) -> bool {
        let cell = self.cell_of(c);
        let claim = self.claims[c];
        if self.in_flight(c) {
            !cell.occupied && (self.producers[claim.owner] is Filled ==> cell.value == Some(
                claim.value,
            ))
        } else if c == self.received.len() && self.in_hand() is Some {
            cell.occupied && self.in_hand() == Some(Some(claim.value))
        } else {
            cell.occupied && cell.value == Some(claim.value)
        }
    }

    /// The cell that the count `c` names is flagged empty.
    pub open spec fn vacant(self, c: int) -> bool {
        !self.cell_of(c).occupied
    }

    /// A sender that holds a cursor holds an outstanding one, which the
    /// record gives to it with its value, and knows it by the right word.
    pub open spec fn producer_ok(self, who: nat) -> bool {
        self.holding(who) matches Some(place) ==> {
            let t = place.ticket()->0;
            &&& self.popped() <= t < self.claims.len()
            &&& match place {
                Producer::Owning { value, head, .. } => self.claims[t as int] == Claim {
                    owner: who,
                    value,
                } && head == word(t),
                Producer::Filled { value, head, .. } => self.claims[t as int] == Claim {
                    owner: who,
                    value,
                } && head == word(t),
                _ => true,
            }
        }
    }

    /// An acknowledged push of `who` stands in the record of claims under its
    /// ticket, and lies before the cursor that `who` holds now.
    pub open spec fn ack_ok(self, who: nat, ack: Ack<T>) -> bool {
        &&& ack.ticket < self.claims.len()
        &&& self.claims[ack.ticket as int] == Claim { owner: who, value: ack.value }
        &&& self.holding(who) matches Some(place) ==> ack.ticket < place.ticket()->0
    }

    /// The record of a sender is sound, and its tickets go up.
    pub open spec fn sent_ok(self, who: nat) -> bool {
        let acks = self.sent[who];
        &&& forall|i: int| 0 <= i < acks.len() ==> self.ack_ok(who, #[trigger] acks[i])
        &&& forall|i: int, j: int|
            0 <= i < j < acks.len() ==> (#[trigger] acks[i]).ticket < (#[trigger] acks[j]).ticket
    }

    /// In the middle of an attempt the receiver works on a cursor that was
    /// claimed and published.
    pub open spec fn consumer_ok(self) -> bool {
        match self.consumer {
            Some(Consumer::Reading) => self.received.len() < self.claims.len()
                && !self.in_flight(self.received.len() as int),
            Some(Consumer::Freeing { .. }) => self.received.len() < self.claims.len()
                && !self.in_flight(self.received.len() as int),
            Some(Consumer::Stepping { value }) => self.received.len() < self.claims.len()
                && value == Some(self.claims[self.received.len() as int].value),
            Some(Consumer::Missed { alone }) => alone ==> self.producers.dom() =~= Set::empty()
                && self.received.len() == self.claims.len(),
            _ => true,
        }
    }

    /// The invariant of the protocol.
    pub open spec fn inv(self) -> bool {
        &&& valid_capacity(self.cap)
        &&& self.cells.len() == self.cap
        &&& self.producers.dom().finite()
        &&& self.head == word(self.claims.len())
        &&& self.tail == word(self.received.len())
        &&& self.popped() <= self.claims.len() <= self.popped() + self.cap
        &&& forall|c: int| self.popped() <= c < self.claims.len() ==> #[trigger] self.cursor_ok(c)
        &&& forall|c: int|
            self.claims.len() <= c < self.popped() + self.cap ==> #[trigger] self.vacant(c)
        &&& forall|who: nat| #[trigger] self.producer_ok(who)
        &&& self.consumer_ok()
        &&& forall|i: int|
            0 <= i < self.received.len() ==> #[trigger] self.received[i] == Some(
                self.claims[i].value,
            )
        &&& forall|who: nat| self.sent.dom().contains(who) ==> #[trigger] self.sent_ok(who)
        &&& forall|who: nat| #[trigger]
            self.producers.dom().contains(who) ==> self.sent.dom().contains(who)
    }
}

/// A fresh channel satisfies the invariant.
pub proof fn lemma_init_inv<T>(cap: usize)
    requires
        valid_capacity(cap),
    ensures
        State::<T>::init(cap).inv(),
{
    let s = State::<T>::init(cap);
    lemma_power_of_two_positive(cap);
    assert forall|c: int| s.claims.len() <= c < s.popped() + s.cap implies #[trigger] s.vacant(
        c,
    ) by {
        vstd::arithmetic::div_mod::lemma_mod_bound(c, cap as int);
    }
    assert forall|who: nat| s.sent.dom().contains(who) implies #[trigger] s.sent_ok(who) by {
        assert(who == 0);
    }
    assert(word(0) == 0) by {
        vstd::arithmetic::div_mod::lemma_small_mod(0, (usize::MAX + 1) as nat);
    }
    assert(s.producers.dom() =~= set![0nat]);
    assert forall|who: nat| #[trigger] s.producer_ok(who) by {
        assert(s.holding(who) is None);
    }
}

/// A step that touches neither the ring nor the record, and no sender that
/// holds a cursor, keeps the invariant.
proof fn lemma_quiet_step<T>(pre: State<T>, post: State<T>, mover: nat)
    requires
        pre.inv(),
        pre.producers.dom().contains(mover),
        post.cap == pre.cap,
        post.cells == pre.cells,
        post.head == pre.head,
        post.tail == pre.tail,
        post.consumer == pre.consumer,
        post.claims == pre.claims,
        post.received == pre.received,
        post.producers.dom().finite(),
        forall|who: nat| #[trigger] post.holding(who) == pre.holding(who),
        forall|who: nat| #[trigger]
            post.producers.dom().contains(who) ==> post.sent.dom().contains(who),
        forall|who: nat| #[trigger]
            post.sent.dom().contains(who) ==> post.sent[who] == Seq::<Ack<T>>::empty() || (
            pre.sent.dom().contains(who) && post.sent[who] == pre.sent[who]),
    ensures
        post.inv(),
{
    assert forall|c: int| post.popped() <= c < post.claims.len() implies #[trigger] post.cursor_ok(
        c,
    ) by {
        assert(pre.cursor_ok(c));
        assert(post.holding(pre.claims[c].owner) == pre.holding(pre.claims[c].owner));
    }
    assert forall|c: int| post.claims.len() <= c < post.popped() + post.cap implies #[trigger] post.vacant(
        c,
    ) by {
        assert(pre.vacant(c));
    }
    assert forall|who: nat| #[trigger] post.producer_ok(who) by {
        assert(pre.producer_ok(who));
        assert(post.holding(who) == pre.holding(who));
    }
    assert(post.consumer_ok()) by {
        let c = pre.received.len() as int;
        assert(post.holding(pre.claims[c].owner) == pre.holding(pre.claims[c].owner));
    }
    assert forall|i: int| 0 <= i < post.received.len() implies #[trigger] post.received[i]
        == Some(post.claims[i].value) by {
        assert(pre.received[i] == Some(pre.claims[i].value));
    }
    assert forall|who: nat| post.sent.dom().contains(who) implies #[trigger] post.sent_ok(
        who,
    ) by {
        assert(post.holding(who) == pre.holding(who));
        if pre.sent.dom().contains(who) && post.sent[who] == pre.sent[who] {
            assert(pre.sent_ok(who));
            let acks = post.sent[who];
            assert forall|i: int| 0 <= i < acks.len() implies post.ack_ok(
                who,
                #[trigger] acks[i],
            ) by {
                assert(pre.ack_ok(who, acks[i]));
            }
        }
    }
}

/// Starting a pass, looking at a flag, and ending a pass that met an
/// occupied slot keep the invariant.
proof fn lemma_watching_keeps_inv<T>(pre: State<T>, step: Step<T>)
    requires
        pre.inv(),
        pre.enabled(step),
        step is Aim || step is Look || step is Measure,
    ensures
        pre.apply(step).inv(),
{
    let post = pre.apply(step);
    let mover = match step {
        Step::Aim { who, .. } => who,
        Step::Look { who } => who,
        Step::Measure { who } => who,
        _ => 0,
    };
    assert(post.producers.dom() =~= pre.producers.dom());
    assert forall|who: nat| #[trigger] post.holding(who) == pre.holding(who) by {
        if who == mover {
        } else {
        }
    }
    lemma_quiet_step(pre, post, mover);
}

/// A claim that finds `head` moved keeps the invariant.
proof fn lemma_lost_claim_keeps_inv<T>(pre: State<T>, who: nat)
    requires
        pre.inv(),
        pre.enabled(Step::Claim { who }),
        !pre.claim_wins(who),
    ensures
        pre.apply(Step::Claim { who }).inv(),
{
    let post = pre.apply(Step::Claim { who });
    assert(post.producers.dom() =~= pre.producers.dom());
    assert forall|p: nat| #[trigger] post.holding(p) == pre.holding(p) by {
        if p == who {
        } else {
        }
    }
    lemma_quiet_step(pre, post, who);
}

/// The birth and the death of a sender keep the invariant.
proof fn lemma_sender_handles_keep_inv<T>(pre: State<T>, step: Step<T>)
    requires
        pre.inv(),
        pre.enabled(step),
        step is CloneSender || step is DropSender,
    ensures
        pre.apply(step).inv(),
{
    let post = pre.apply(step);
    match step {
        Step::CloneSender { from, fresh } => {
            assert(post.producers.dom() =~= pre.producers.dom().insert(fresh));
            assert forall|p: nat| #[trigger] post.holding(p) == pre.holding(p) by {
                if p == fresh {
                } else {
                }
            }
            lemma_quiet_step(pre, post, from);
        },
        Step::DropSender { who } => {
            assert(post.producers.dom() =~= pre.producers.dom().remove(who));
            assert forall|p: nat| #[trigger] post.holding(p) == pre.holding(p) by {
                if p == who {
                } else {
                }
            }
            lemma_quiet_step(pre, post, who);
        },
        _ => {},
    }
}

/// Two outstanding cursors, or an outstanding and a free one, name
/// different cells.
proof fn lemma_cells_apart<T>(s: State<T>, a: int, b: int)
    requires
        s.inv(),
        s.popped() <= a < s.popped() + s.cap,
        s.popped() <= b < s.popped() + s.cap,
        a != b,
    ensures
        a % (s.cap as int) != b % (s.cap as int),
        0 <= a % (s.cap as int) < s.cap,
{
    lemma_power_of_two_positive(s.cap);
    vstd::arithmetic::div_mod::lemma_mod_bound(a, s.cap as int);
    if a % (s.cap as int) == b % (s.cap as int) {
        lemma_same_slot(a, b, s.cap as int);
    }
}

/// A claim that wins a cursor while the ring has room keeps the invariant.
proof fn lemma_won_claim_keeps_inv<T>(pre: State<T>, who: nat)
    requires
        pre.inv(),
        pre.enabled(Step::Claim { who }),
        pre.claim_wins(who),
        !pre.overruns(Step::Claim { who }),
    ensures
        pre.apply(Step::Claim { who }).inv(),
{
    let step = Step::Claim { who };
    let post = pre.apply(step);
    let n = pre.claims.len();
    lemma_successor_of_word(n);
    assert(post.producers.dom() =~= pre.producers.dom());
    assert(pre.holding(who) is None);
    assert forall|p: nat| p != who implies #[trigger] post.holding(p) == pre.holding(p) by {}
    assert forall|c: int| post.popped() <= c < post.claims.len() implies #[trigger] post.cursor_ok(
        c,
    ) by {
        if c < n {
            assert(pre.cursor_ok(c));
            let owner = pre.claims[c].owner;
            if owner != who {
                assert(post.holding(owner) == pre.holding(owner));
            }
        } else {
            assert(pre.vacant(c));
        }
    }
    assert forall|c: int| post.claims.len() <= c < post.popped() + post.cap implies #[trigger] post.vacant(
        c,
    ) by {
        assert(pre.vacant(c));
    }
    assert forall|p: nat| #[trigger] post.producer_ok(p) by {
        assert(pre.producer_ok(p));
        if p != who {
            assert(post.holding(p) == pre.holding(p));
        }
    }
    assert(post.consumer_ok()) by {
        let c = pre.received.len() as int;
        if c < n {
            let owner = pre.claims[c].owner;
            if owner != who {
                assert(post.holding(owner) == pre.holding(owner));
            }
        }
    }
    assert forall|i: int| 0 <= i < post.received.len() implies #[trigger] post.received[i]
        == Some(post.claims[i].value) by {
        assert(pre.received[i] == Some(pre.claims[i].value));
    }
    assert forall|p: nat| post.sent.dom().contains(p) implies #[trigger] post.sent_ok(p) by {
        assert(pre.sent_ok(p));
        let acks = post.sent[p];
        assert forall|i: int| 0 <= i < acks.len() implies post.ack_ok(p, #[trigger] acks[i]) by {
            assert(pre.ack_ok(p, acks[i]));
            if p != who {
                assert(post.holding(p) == pre.holding(p));
            }
        }
    }
}

/// Writing the value into the slot of a cursor that was won keeps the
/// invariant.
proof fn lemma_write_keeps_inv<T>(pre: State<T>, who: nat)
    requires
        pre.inv(),
        pre.enabled(Step::Write { who }),
    ensures
        pre.apply(Step::Write { who }).inv(),
{
    let step = Step::Write { who };
    let post = pre.apply(step);
    let t = pre.producers[who].ticket()->0 as int;
    let seat = t % (pre.cap as int);
    assert(pre.producer_ok(who));
    lemma_slot_of_word(t as nat, pre.cap);
    assert(post.producers.dom() =~= pre.producers.dom());
    assert(post.cells =~= pre.cells.update(seat, post.cells[seat]));
    assert(post.cells[seat].occupied == pre.cells[seat].occupied);
    assert forall|p: nat| p != who implies #[trigger] post.holding(p) == pre.holding(p) by {}
    assert forall|c: int| post.popped() <= c < post.claims.len() implies #[trigger] post.cursor_ok(
        c,
    ) by {
        assert(pre.cursor_ok(c));
        let owner = pre.claims[c].owner;
        if c == t {
        } else {
            lemma_cells_apart(pre, c, t);
            if owner != who {
                assert(post.holding(owner) == pre.holding(owner));
            }
        }
    }
    assert forall|c: int| post.claims.len() <= c < post.popped() + post.cap implies #[trigger] post.vacant(
        c,
    ) by {
        assert(pre.vacant(c));
        lemma_cells_apart(pre, c, t);
    }
    assert forall|p: nat| #[trigger] post.producer_ok(p) by {
        assert(pre.producer_ok(p));
        if p != who {
            assert(post.holding(p) == pre.holding(p));
        }
    }
    assert(post.consumer_ok()) by {
        let c = pre.received.len() as int;
        if c < pre.claims.len() {
            let owner = pre.claims[c].owner;
            if owner != who {
                assert(post.holding(owner) == pre.holding(owner));
            }
        }
    }
    assert forall|i: int| 0 <= i < post.received.len() implies #[trigger] post.received[i]
        == Some(post.claims[i].value) by {
        assert(pre.received[i] == Some(pre.claims[i].value));
    }
    assert forall|p: nat| post.sent.dom().contains(p) implies #[trigger] post.sent_ok(p) by {
        assert(pre.sent_ok(p));
        let acks = post.sent[p];
        assert forall|i: int| 0 <= i < acks.len() implies post.ack_ok(p, #[trigger] acks[i]) by {
            assert(pre.ack_ok(p, acks[i]));
            if p != who {
                assert(post.holding(p) == pre.holding(p));
            }
        }
    }
}

/// Setting the flag of a written slot, which ends the pass, keeps the
/// invariant.
proof fn lemma_publish_keeps_inv<T>(pre: State<T>, who: nat)
    requires
        pre.inv(),
        pre.enabled(Step::Publish { who }),
    ensures
        pre.apply(Step::Publish { who }).inv(),
{
    let step = Step::Publish { who };
    let post = pre.apply(step);
    let t = pre.producers[who].ticket()->0 as int;
    let seat = t % (pre.cap as int);
    assert(pre.producer_ok(who));
    assert(pre.cursor_ok(t));
    assert(pre.in_flight(t));
    lemma_slot_of_word(t as nat, pre.cap);
    assert(post.producers.dom() =~= pre.producers.dom());
    assert(post.cells =~= pre.cells.update(seat, post.cells[seat]));
    assert(post.cells[seat].value == pre.cells[seat].value);
    assert(post.holding(who) is None);
    assert forall|p: nat| p != who implies #[trigger] post.holding(p) == pre.holding(p) by {}
    assert forall|c: int| post.popped() <= c < post.claims.len() implies #[trigger] post.cursor_ok(
        c,
    ) by {
        assert(pre.cursor_ok(c));
        let owner = pre.claims[c].owner;
        if c == t {
        } else {
            lemma_cells_apart(pre, c, t);
            if owner != who {
                assert(post.holding(owner) == pre.holding(owner));
            }
        }
    }
    assert forall|c: int| post.claims.len() <= c < post.popped() + post.cap implies #[trigger] post.vacant(
        c,
    ) by {
        assert(pre.vacant(c));
        lemma_cells_apart(pre, c, t);
    }
    assert forall|p: nat| #[trigger] post.producer_ok(p) by {
        assert(pre.producer_ok(p));
        if p != who {
            assert(post.holding(p) == pre.holding(p));
        }
    }
    assert(post.consumer_ok()) by {
        let c = pre.received.len() as int;
        if c < pre.claims.len() {
            let owner = pre.claims[c].owner;
            if owner != who {
                assert(post.holding(owner) == pre.holding(owner));
            }
        }
    }
    assert forall|i: int| 0 <= i < post.received.len() implies #[trigger] post.received[i]
        == Some(post.claims[i].value) by {
        assert(pre.received[i] == Some(pre.claims[i].value));
    }
    assert forall|p: nat| post.sent.dom().contains(p) implies #[trigger] post.sent_ok(p) by {
        assert(pre.sent_ok(p));
        let acks = post.sent[p];
        if p != who {
            assert(post.holding(p) == pre.holding(p));
            assert forall|i: int| 0 <= i < acks.len() implies post.ack_ok(
                p,
                #[trigger] acks[i],
            ) by {
                assert(pre.ack_ok(p, acks[i]));
            }
        } else {
            let before = pre.sent[who];
            assert forall|i: int| 0 <= i < acks.len() implies post.ack_ok(
                p,
                #[trigger] acks[i],
            ) by {
                if i < before.len() {
                    assert(acks[i] == before[i]);
                    assert(pre.ack_ok(p, before[i]));
                }
            }
            assert forall|i: int, j: int| 0 <= i < j < acks.len() implies (#[trigger] acks[i]).ticket
                < (#[trigger] acks[j]).ticket by {
                assert(acks[i] == before[i]);
                assert(pre.ack_ok(p, before[i]));
                if j < before.len() {
                    assert(acks[j] == before[j]);
                }
            }
        }
    }
}

/// A step of the receiver leaves the senders' records sound.
proof fn lemma_senders_records_kept<T>(pre: State<T>, post: State<T>)
    requires
        pre.inv(),
        post.producers == pre.producers,
        post.claims == pre.claims,
        post.sent == pre.sent,
    ensures
        forall|who: nat| post.sent.dom().contains(who) ==> #[trigger] post.sent_ok(who),
{
    assert forall|who: nat| post.sent.dom().contains(who) implies #[trigger] post.sent_ok(
        who,
    ) by {
        assert(pre.sent_ok(who));
        let acks = post.sent[who];
        assert forall|i: int| 0 <= i < acks.len() implies post.ack_ok(who, #[trigger] acks[i]) by {
            assert(pre.ack_ok(who, acks[i]));
        }
    }
}

/// A look of the receiver at the slot that `tail` names keeps the invariant.
proof fn lemma_peek_keeps_inv<T>(pre: State<T>)
    requires
        pre.inv(),
        pre.enabled(Step::Peek),
    ensures
        pre.apply(Step::Peek).inv(),
{
    let post = pre.apply(Step::<T>::Peek);
    let r = pre.received.len() as int;
    lemma_slot_of_word(r as nat, pre.cap);
    lemma_power_of_two_positive(pre.cap);
    if r == pre.claims.len() {
        assert(pre.vacant(r));
    } else {
        assert(pre.cursor_ok(r));
    }
    if !pre.cell_at(pre.tail).occupied && pre.holders() == 1 {
        pre.producers.dom().lemma_len0_is_empty();
    }
    assert forall|c: int| post.popped() <= c < post.claims.len() implies #[trigger] post.cursor_ok(
        c,
    ) by {
        assert(pre.cursor_ok(c));
    }
    assert forall|c: int| post.claims.len() <= c < post.popped() + post.cap implies #[trigger] post.vacant(
        c,
    ) by {
        assert(pre.vacant(c));
    }
    assert forall|p: nat| #[trigger] post.producer_ok(p) by {
        assert(pre.producer_ok(p));
    }
    lemma_senders_records_kept(pre, post);
}

/// Moving the value out of the slot keeps the invariant.
proof fn lemma_take_keeps_inv<T>(pre: State<T>)
    requires
        pre.inv(),
        pre.enabled(Step::Take),
    ensures
        pre.apply(Step::Take).inv(),
{
    let post = pre.apply(Step::<T>::Take);
    let r = pre.received.len() as int;
    let seat = r % (pre.cap as int);
    lemma_slot_of_word(r as nat, pre.cap);
    assert(pre.cursor_ok(r));
    assert(post.cells =~= pre.cells.update(seat, post.cells[seat]));
    assert(post.cells[seat].occupied == pre.cells[seat].occupied);
    assert forall|c: int| post.popped() <= c < post.claims.len() implies #[trigger] post.cursor_ok(
        c,
    ) by {
        assert(pre.cursor_ok(c));
        if c != r {
            lemma_cells_apart(pre, c, r);
        }
    }
    assert forall|c: int| post.claims.len() <= c < post.popped() + post.cap implies #[trigger] post.vacant(
        c,
    ) by {
        assert(pre.vacant(c));
        lemma_cells_apart(pre, c, r);
    }
    assert forall|p: nat| #[trigger] post.producer_ok(p) by {
        assert(pre.producer_ok(p));
    }
    lemma_senders_records_kept(pre, post);
}

/// Clearing the flag of the slot that was read keeps the invariant.
proof fn lemma_free_keeps_inv<T>(pre: State<T>)
    requires
        pre.inv(),
        pre.enabled(Step::Free),
    ensures
        pre.apply(Step::Free).inv(),
{
    let post = pre.apply(Step::<T>::Free);
    let r = pre.received.len() as int;
    let seat = r % (pre.cap as int);
    lemma_slot_of_word(r as nat, pre.cap);
    lemma_power_of_two_positive(pre.cap);
    assert(pre.cursor_ok(r));
    assert(post.cells =~= pre.cells.update(seat, post.cells[seat]));
    assert forall|c: int| post.popped() <= c < post.claims.len() implies #[trigger] post.cursor_ok(
        c,
    ) by {
        assert(pre.cursor_ok(c));
        lemma_cells_apart(pre, c, r);
    }
    assert forall|c: int| post.claims.len() <= c < post.popped() + post.cap implies #[trigger] post.vacant(
        c,
    ) by {
        if c == r + pre.cap {
            vstd::arithmetic::div_mod::lemma_mod_add_multiples_vanish(r, pre.cap as int);
        } else {
            assert(pre.vacant(c));
            lemma_cells_apart(pre, c, r);
        }
    }
    assert forall|p: nat| #[trigger] post.producer_ok(p) by {
        assert(pre.producer_ok(p));
    }
    lemma_senders_records_kept(pre, post);
}

/// Moving `tail` on, which ends the attempt, keeps the invariant.
proof fn lemma_advance_keeps_inv<T>(pre: State<T>)
    requires
        pre.inv(),
        pre.enabled(Step::Advance),
    ensures
        pre.apply(Step::Advance).inv(),
{
    let post = pre.apply(Step::<T>::Advance);
    let r = pre.received.len() as int;
    lemma_successor_of_word(r as nat);
    assert forall|c: int| post.popped() <= c < post.claims.len() implies #[trigger] post.cursor_ok(
        c,
    ) by {
        assert(pre.cursor_ok(c));
    }
    assert forall|c: int| post.claims.len() <= c < post.popped() + post.cap implies #[trigger] post.vacant(
        c,
    ) by {
        assert(pre.vacant(c));
    }
    assert forall|p: nat| #[trigger] post.producer_ok(p) by {
        assert(pre.producer_ok(p));
    }
    assert forall|i: int| 0 <= i < post.received.len() implies #[trigger] post.received[i]
        == Some(post.claims[i].value) by {
        if i < r {
            assert(pre.received[i] == Some(pre.claims[i].value));
        }
    }
    lemma_senders_records_kept(pre, post);
}

/// The count that ends an attempt, and the death of the receiver, keep the
/// invariant.
proof fn lemma_receiver_rest_keeps_inv<T>(pre: State<T>, step: Step<T>)
    requires
        pre.inv(),
        pre.enabled(step),
        step is Count || step is DropReceiver,
    ensures
        pre.apply(step).inv(),
{
    let post = pre.apply(step);
    assert forall|c: int| post.popped() <= c < post.claims.len() implies #[trigger] post.cursor_ok(
        c,
    ) by {
        assert(pre.cursor_ok(c));
    }
    assert forall|c: int| post.claims.len() <= c < post.popped() + post.cap implies #[trigger] post.vacant(
        c,
    ) by {
        assert(pre.vacant(c));
    }
    assert forall|p: nat| #[trigger] post.producer_ok(p) by {
        assert(pre.producer_ok(p));
    }
    assert forall|i: int| 0 <= i < post.received.len() implies #[trigger] post.received[i]
        == Some(post.claims[i].value) by {
        assert(pre.received[i] == Some(pre.claims[i].value));
    }
    lemma_senders_records_kept(pre, post);
}

/// Every step that does not overrun the ring keeps the invariant.
pub proof fn lemma_step_keeps_inv<T>(pre: State<T>, post: State<T>, step: Step<T>)
    requires
        pre.inv(),
        next(pre, post, step),
        !pre.overruns(step),
    ensures
        post.inv(),
{
    match step {
        Step::Aim { .. } => lemma_watching_keeps_inv(pre, step),
        Step::Look { .. } => lemma_watching_keeps_inv(pre, step),
        Step::Measure { .. } => lemma_watching_keeps_inv(pre, step),
        Step::Claim { who } => {
            if pre.claim_wins(who) {
                lemma_won_claim_keeps_inv(pre, who);
            } else {
                lemma_lost_claim_keeps_inv(pre, who);
            }
        },
        Step::Write { who } => lemma_write_keeps_inv(pre, who),
        Step::Publish { who } => lemma_publish_keeps_inv(pre, who),
        Step::Peek => lemma_peek_keeps_inv(pre),
        Step::Take => lemma_take_keeps_inv(pre),
        Step::Free => lemma_free_keeps_inv(pre),
        Step::Advance => lemma_advance_keeps_inv(pre),
        Step::CloneSender { .. } => lemma_sender_handles_keep_inv(pre, step),
        Step::DropSender { .. } => lemma_sender_handles_keep_inv(pre, step),
        Step::Count => lemma_receiver_rest_keeps_inv(pre, step),
        Step::DropReceiver => lemma_receiver_rest_keeps_inv(pre, step),
    }
}

} // verus!
