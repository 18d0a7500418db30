//! What the channel promises, proved of every run of the protocol.
//!
//! A run starts from a fresh channel and takes any steps in any order. The
//! promises about the values (the capacity bound, nothing lost and nothing
//! handed out twice, each sender's order kept) hold of the runs in which no
//! claim overruns the ring. [`lemma_overrun_exceeds_capacity`] and
//! [`lemma_overrun_loses_a_value`] show that they end with the first claim
//! that does, and [`lemma_serial_run_never_overruns`] that none does while
//! senders take turns. The promises about disconnection speak of what a
//! handle counts; [`lemma_late_count_leaves_a_value`] shows where they end.

use crate::mpsc::cursor::{
    lemma_capacity_divides_word, lemma_distance_of_words, lemma_power_of_two_positive,
    lemma_slot_of_word,
};
use crate::mpsc::error::TryRecvError;
use crate::mpsc::protocol::{
    next, valid_capacity, Ack, CellState, Claim, Consumer, Producer, State, Step,
};
use crate::mpsc::ring_buf::Push;
use crate::mpsc::safety::{lemma_init_inv, lemma_step_keeps_inv};
use vstd::prelude::*;

verus! {

/// `states` is a run of a channel of `cap` cells: it starts fresh, and each
/// state follows from the one before by the step of the same index.
pub open spec fn is_run<T>(cap: usize, states: Seq<State<T>>, steps: Seq<Step<T>>) -> bool {
    &&& valid_capacity(cap)
    &&& states.len() == steps.len() + 1
    &&& states[0] == State::<T>::init(cap)
    &&& forall|i: int| 0 <= i < steps.len() ==> next(states[i], states[i + 1], #[trigger] steps[i])
}

/// No step of the run is a claim that overruns the ring.
pub open spec fn never_overruns<T>(states: Seq<State<T>>, steps: Seq<Step<T>>) -> bool {
    forall|i: int| 0 <= i < steps.len() ==> !states[i].overruns(#[trigger] steps[i])
}

/// The invariant holds in every state of a run that never overruns.
pub proof fn lemma_run_keeps_inv<T>(
    cap: usize,
    states: Seq<State<T>>,
    steps: Seq<Step<T>>,
    k: int,
)
    requires
        is_run(cap, states, steps),
        never_overruns(states, steps),
        0 <= k < states.len(),
    ensures
        states[k].inv(),
        states[k].cap == cap,
    decreases k,
{
    if k == 0 {
        lemma_init_inv::<T>(cap);
    } else {
        lemma_run_keeps_inv(cap, states, steps, k - 1);
        let step = steps[k - 1];
        assert(next(states[k - 1], states[k - 1 + 1], step));
        assert(!states[k - 1].overruns(step));
        lemma_step_keeps_inv(states[k - 1], states[k], step);
    }
}

/// Capacity bound. In every state of a run that never overruns, the values
/// that were claimed and whose cell the receiver has not yet given back are
/// at most as many as the ring has cells.
pub proof fn lemma_capacity_bound<T>(
    cap: usize,
    states: Seq<State<T>>,
    steps: Seq<Step<T>>,
    k: int,
)
    requires
        is_run(cap, states, steps),
        never_overruns(states, steps),
        0 <= k < states.len(),
    ensures
        0 <= states[k].outstanding() <= cap,
{
    lemma_run_keeps_inv(cap, states, steps, k);
}

/// Where the bound ends. A claim that overruns the ring leaves more values
/// outstanding than the ring has cells: the bound holds of no run with such
/// a claim.
pub proof fn lemma_overrun_exceeds_capacity<T>(pre: State<T>, post: State<T>, step: Step<T>)
    requires
        next(pre, post, step),
        pre.overruns(step),
    ensures
        post.outstanding() > post.cap,
{
}

/// A full ring is reported full. When as many values as the ring has cells
/// are published and unread, a pass that runs while the ring stays as it is
/// ends `Full`, hands the value back, and leaves the ring untouched.
pub proof fn lemma_full_ring_reports_full<T>(s: State<T>, who: nat, value: T)
    requires
        s.inv(),
        s.outstanding() == s.cap,
        forall|c: int| s.popped() <= c < s.claims.len() ==> !s.in_flight(c),
        s.enabled(Step::Aim { who, value }),
    ensures
        ({
            let aimed = s.apply(Step::Aim { who, value });
            let looked = aimed.apply(Step::Look { who });
            let ended = looked.apply(Step::Measure { who });
            &&& aimed.enabled(Step::Look { who })
            &&& looked.enabled(Step::Measure { who })
            &&& looked.pass_outcome(Step::Measure { who }) == Some(Push::Full(value))
            &&& ended.cells == s.cells
            &&& ended.head == s.head
            &&& ended.tail == s.tail
            &&& ended.claims == s.claims
        }),
{
    let aimed = s.apply(Step::Aim { who, value });
    let looked = aimed.apply(Step::Look { who });
    let n = s.claims.len();
    let first = s.popped() as int;
    let reads = s.received.len();
    lemma_power_of_two_positive(s.cap);
    lemma_slot_of_word(n, s.cap);
    assert(n as int % (s.cap as int) == first % (s.cap as int)) by {
        vstd::arithmetic::div_mod::lemma_mod_add_multiples_vanish(first, s.cap as int);
    }
    assert(s.cursor_ok(first));
    assert(!s.in_flight(first));
    assert(s.cell_at(s.head).occupied);
    assert(aimed.producers[who] == Producer::Aimed { value, head: s.head });
    assert(looked.producers[who] == Producer::Blocked { value, head: s.head });
    let q = lemma_capacity_divides_word(s.cap);
    assert(n - reads <= usize::MAX) by {
        assert(q >= 2) by (nonlinear_arith)
            requires
                s.cap * q == usize::MAX + 1,
                s.cap <= usize::MAX,
                q > 0,
        ;
        assert(s.cap * 2 <= usize::MAX + 1) by (nonlinear_arith)
            requires
                s.cap * q == usize::MAX + 1,
                q >= 2,
        ;
    }
    lemma_distance_of_words(n, reads);
}

/// At most one sender is inside a pass.
pub open spec fn serial<T>(s: State<T>) -> bool {
    forall|p: nat, q: nat|
        s.producers.dom().contains(p) && s.producers.dom().contains(q) && !(
        #[trigger] s.producers[p] is Idle) && !(#[trigger] s.producers[q] is Idle) ==> p == q
}

/// Senders take turns throughout the run.
pub open spec fn always_serial<T>(states: Seq<State<T>>) -> bool {
    forall|k: int| 0 <= k < states.len() ==> serial(#[trigger] states[k])
}

/// What `who` last saw of the ring is still so: `head` is where it loaded
/// it, and a flag that it found clear is clear.
spec fn view_is_fresh<T>(s: State<T>, who: nat) -> bool {
    s.producers.dom().contains(who) ==> match s.producers[who] {
        Producer::Aimed { head, .. } => head == s.head,
        Producer::Blocked { head, .. } => head == s.head,
        Producer::Poised { head, .. } => head == s.head && !s.cell_at(head).occupied,
        _ => true,
    }
}

spec fn views_are_fresh<T>(s: State<T>) -> bool {
    forall|who: nat| #[trigger] view_is_fresh(s, who)
}

/// While senders take turns, a step does not overrun, and the sender inside
/// a pass keeps seeing the ring as it is.
proof fn lemma_serial_step<T>(pre: State<T>, post: State<T>, step: Step<T>)
    requires
        pre.inv(),
        serial(pre),
        views_are_fresh(pre),
        next(pre, post, step),
        serial(post),
    ensures
        !pre.overruns(step),
        post.inv(),
        views_are_fresh(post),
{
    if let Step::Claim { who } = step {
        if pre.claim_wins(who) && pre.outstanding() >= pre.cap {
            let n = pre.claims.len();
            let first = pre.popped() as int;
            lemma_power_of_two_positive(pre.cap);
            lemma_slot_of_word(n, pre.cap);
            assert(view_is_fresh(pre, who));
            assert(n as int % (pre.cap as int) == first % (pre.cap as int)) by {
                vstd::arithmetic::div_mod::lemma_mod_add_multiples_vanish(first, pre.cap as int);
            }
            assert(pre.cursor_ok(first));
            let owner = pre.claims[first].owner;
            if pre.in_flight(first) {
                assert(!(pre.producers[owner] is Idle));
                assert(!(pre.producers[who] is Idle));
                assert(owner == who);
            }
            assert(false);
        }
    }
    lemma_step_keeps_inv(pre, post, step);
    assert forall|p: nat| #[trigger] view_is_fresh(post, p) by {
        assert(view_is_fresh(pre, p));
        if post.producers.dom().contains(p) && !(post.producers[p] is Idle) {
            match step {
                Step::Aim { who, .. } => {
                    assert(!(post.producers[who] is Idle));
                },
                Step::Look { who } => {
                    assert(!(post.producers[who] is Idle));
                },
                Step::Claim { who } => {
                    if pre.claim_wins(who) {
                        assert(!(post.producers[who] is Idle));
                    }
                },
                Step::Write { who } => {
                    assert(!(post.producers[who] is Idle));
                },
                Step::Publish { who } => {
                    assert(!(pre.producers[who] is Idle));
                    if p != who {
                        assert(!(pre.producers[p] is Idle));
                    }
                },
                _ => {},
            }
        }
    }
}

/// Up to its `k`th state a serial run keeps the invariant and the senders'
/// views, and has not overrun.
proof fn lemma_serial_prefix<T>(cap: usize, states: Seq<State<T>>, steps: Seq<Step<T>>, k: int)
    requires
        is_run(cap, states, steps),
        always_serial(states),
        0 <= k < states.len(),
    ensures
        states[k].inv(),
        views_are_fresh(states[k]),
        forall|i: int| 0 <= i < k ==> !states[i].overruns(#[trigger] steps[i]),
    decreases k,
{
    if k == 0 {
        lemma_init_inv::<T>(cap);
        assert forall|who: nat| #[trigger] view_is_fresh(states[0], who) by {}
    } else {
        lemma_serial_prefix(cap, states, steps, k - 1);
        let step = steps[k - 1];
        assert(next(states[k - 1], states[k - 1 + 1], step));
        assert(serial(states[k - 1]));
        assert(serial(states[k]));
        lemma_serial_step(states[k - 1], states[k], step);
    }
}

/// Senders that take turns never overrun. In a run in which at most one
/// sender is inside a pass at any time, whatever the receiver does meanwhile,
/// no claim overruns the ring: every promise of this file holds of such a run.
pub proof fn lemma_serial_run_never_overruns<T>(
    cap: usize,
    states: Seq<State<T>>,
    steps: Seq<Step<T>>,
)
    requires
        is_run(cap, states, steps),
        always_serial(states),
    ensures
        never_overruns(states, steps),
{
    lemma_serial_prefix(cap, states, steps, steps.len() as int);
}

/// Values come out in the order of the claims. The `i`th value that the
/// receiver was handed is the value of the `i`th claim: none is skipped, none
/// comes twice, none is made up.
pub proof fn lemma_received_in_claim_order<T>(s: State<T>, i: int)
    requires
        s.inv(),
        0 <= i < s.received.len(),
    ensures
        i < s.claims.len(),
        s.received[i] == Some(s.claims[i].value),
{
}

/// An attempt that ends with a value ends with the value of the oldest claim
/// that has not been handed out.
pub proof fn lemma_pop_returns_oldest<T>(s: State<T>)
    requires
        s.inv(),
        s.enabled(Step::Advance),
    ensures
        s.received.len() < s.claims.len(),
        s.pop_outcome(Step::Advance) == Some(Some(s.claims[s.received.len() as int].value)),
        s.apply(Step::Advance).received == s.received.push(
            Some(s.claims[s.received.len() as int].value),
        ),
{
}

/// An attempt ends with nothing only if nothing is there. The receiver finds
/// the slot at `tail` clear exactly when no claim is waiting, or the oldest
/// waiting claim has not been published yet.
pub proof fn lemma_pop_misses_only_unpublished<T>(s: State<T>)
    requires
        s.inv(),
        s.enabled(Step::Peek),
    ensures
        s.pop_outcome(Step::Peek) == Some(None::<T>) <==> (s.received.len() == s.claims.len()
            || s.in_flight(s.received.len() as int)),
{
    let r = s.received.len() as int;
    lemma_slot_of_word(r as nat, s.cap);
    lemma_power_of_two_positive(s.cap);
    if r == s.claims.len() {
        assert(s.vacant(r));
    } else {
        assert(s.cursor_ok(r));
    }
}

/// The receiver makes headway. An attempt that starts while the oldest
/// waiting claim is published goes through its four steps and hands out that
/// claim's value, so a receiver that keeps trying reaches every published
/// value in turn.
pub proof fn lemma_attempt_delivers_oldest<T>(s: State<T>)
    requires
        s.inv(),
        s.enabled(Step::Peek),
        s.received.len() < s.claims.len(),
        !s.in_flight(s.received.len() as int),
    ensures
        ({
            let seen = s.apply(Step::Peek);
            let taken = seen.apply(Step::Take);
            let freed = taken.apply(Step::Free);
            let ended = freed.apply(Step::Advance);
            &&& s.pop_outcome(Step::Peek) is None
            &&& seen.enabled(Step::Take)
            &&& taken.enabled(Step::Free)
            &&& freed.enabled(Step::Advance)
            &&& freed.pop_outcome(Step::Advance) == Some(
                Some(s.claims[s.received.len() as int].value),
            )
            &&& ended.received == s.received.push(Some(s.claims[s.received.len() as int].value))
            &&& ended.enabled(Step::Peek)
            &&& ended.inv()
        }),
{
    let seen = s.apply(Step::Peek);
    let taken = seen.apply(Step::Take);
    let freed = taken.apply(Step::Free);
    let ended = freed.apply(Step::Advance);
    lemma_pop_misses_only_unpublished(s);
    lemma_step_keeps_inv(s, seen, Step::Peek);
    lemma_step_keeps_inv(seen, taken, Step::Take);
    lemma_step_keeps_inv(taken, freed, Step::Free);
    lemma_step_keeps_inv(freed, ended, Step::Advance);
    lemma_pop_returns_oldest(freed);
}

/// No loss. A push that was acknowledged to `who` stands in the record of
/// claims with its value, and that value has either been handed to the
/// receiver, at the place of its ticket, or waits for it: in the receiver's
/// hand, or published in the cell that its ticket names.
pub proof fn lemma_acknowledged_is_kept<T>(s: State<T>, who: nat, i: int)
    requires
        s.inv(),
        s.sent.dom().contains(who),
        0 <= i < s.sent[who].len(),
    ensures
        ({
            let ack = s.sent[who][i];
            let t = ack.ticket as int;
            &&& t < s.claims.len()
            &&& s.claims[t].owner == who
            &&& s.claims[t].value == ack.value
            &&& if t < s.received.len() {
                s.received[t] == Some(ack.value)
            } else if t == s.received.len() && s.in_transit() is Some {
                s.in_transit() == Some(Some(ack.value))
            } else {
                s.cell_of(t).occupied && s.cell_of(t).value == Some(ack.value)
            }
        }),
{
    let ack = s.sent[who][i];
    let t = ack.ticket as int;
    assert(s.sent_ok(who));
    assert(s.ack_ok(who, ack));
    if t >= s.popped() {
        assert(s.cursor_ok(t));
    }
}

/// No duplication. Two acknowledged pushes, of one sender or of two, have
/// different tickets, so each is handed out at a place of its own.
pub proof fn lemma_tickets_are_unique<T>(s: State<T>, p: nat, i: int, q: nat, j: int)
    requires
        s.inv(),
        s.sent.dom().contains(p),
        s.sent.dom().contains(q),
        0 <= i < s.sent[p].len(),
        0 <= j < s.sent[q].len(),
        p != q || i != j,
    ensures
        s.sent[p][i].ticket != s.sent[q][j].ticket,
{
    assert(s.sent_ok(p));
    assert(s.sent_ok(q));
    assert(s.ack_ok(p, s.sent[p][i]));
    assert(s.ack_ok(q, s.sent[q][j]));
    if p == q {
        if i < j {
            assert(s.sent[p][i].ticket < s.sent[p][j].ticket);
        } else {
            assert(s.sent[p][j].ticket < s.sent[p][i].ticket);
        }
    }
}

/// Per-sender order. Of two pushes acknowledged to one sender, the earlier
/// has the smaller ticket; values are handed out in the order of the
/// tickets, so the receiver meets the two in the order in which they were
/// sent, whatever other senders put between them.
pub proof fn lemma_sender_order_is_kept<T>(s: State<T>, who: nat, i: int, j: int)
    requires
        s.inv(),
        s.sent.dom().contains(who),
        0 <= i < j < s.sent[who].len(),
    ensures
        s.sent[who][i].ticket < s.sent[who][j].ticket,
        s.sent[who][j].ticket < s.received.len() ==> {
            &&& s.received[s.sent[who][i].ticket as int] == Some(s.sent[who][i].value)
            &&& s.received[s.sent[who][j].ticket as int] == Some(s.sent[who][j].value)
        },
{
    assert(s.sent_ok(who));
    assert(s.sent[who][i].ticket < s.sent[who][j].ticket);
    lemma_acknowledged_is_kept(s, who, i);
    lemma_acknowledged_is_kept(s, who, j);
}

/// The receiver counts right. A receiver that counts one handle on the ring
/// has lost every sender, and the other way round.
pub proof fn lemma_receiver_alone_iff_no_sender<T>(s: State<T>)
    requires
        s.inv(),
        s.consumer is Some,
    ensures
        s.holders() == 1 <==> s.producers.dom() =~= Set::<nat>::empty(),
{
    if s.producers.dom().len() == 0 {
        s.producers.dom().lemma_len0_is_empty();
    }
}

/// Disconnect after drain. Once the last sender is gone, an attempt of the
/// receiver finds a value as long as one is left; when it finds none, every
/// value ever claimed has been handed out, and the attempt goes on to count
/// the handles and end `Disconnected`.
pub proof fn lemma_last_receiver_drains_first<T>(s: State<T>)
    requires
        s.inv(),
        s.enabled(Step::Peek),
        s.holders() == 1,
    ensures
        s.pop_outcome(Step::Peek) == Some(None::<T>) <==> s.received.len() == s.claims.len(),
        s.pop_outcome(Step::Peek) == Some(None::<T>) ==> {
            let missed = s.apply(Step::Peek);
            &&& missed.consumer == Some(Consumer::<T>::Missed { alone: true })
            &&& missed.attempt_outcome(Step::Count) == Some(
                Err::<T, TryRecvError>(TryRecvError::Disconnected),
            )
        },
{
    lemma_receiver_alone_iff_no_sender(s);
    lemma_pop_misses_only_unpublished(s);
    let r = s.received.len() as int;
    if r < s.claims.len() {
        assert(!s.producers.dom().contains(s.claims[r].owner));
    }
}

/// No disconnection while a value waits. An attempt that looked at the ring
/// when the receiver was the only handle left, found nothing, and now
/// counts, ends `Disconnected`, and it leaves nothing behind: every claim
/// has been handed out, every acknowledged push has been received, and no
/// cell is occupied.
pub proof fn lemma_disconnected_means_drained<T>(s: State<T>)
    requires
        s.inv(),
        s.consumer == Some(Consumer::<T>::Missed { alone: true }),
    ensures
        s.enabled(Step::Count),
        s.attempt_outcome(Step::Count) == Some(Err::<T, TryRecvError>(TryRecvError::Disconnected)),
        s.received.len() == s.claims.len(),
        forall|who: nat, i: int|
            s.sent.dom().contains(who) && 0 <= i < s.sent[who].len() ==> {
                let ack = #[trigger] s.sent[who][i];
                ack.ticket < s.received.len() && s.received[ack.ticket as int] == Some(
                    ack.value,
                )
            },
        forall|j: int| 0 <= j < s.cells.len() ==> !(#[trigger] s.cells[j]).occupied,
{
    assert(s.producers.dom().len() == 0);
    assert forall|who: nat, i: int|
        s.sent.dom().contains(who) && 0 <= i < s.sent[who].len() implies {
        let ack = #[trigger] s.sent[who][i];
        ack.ticket < s.received.len() && s.received[ack.ticket as int] == Some(ack.value)
    } by {
        lemma_acknowledged_is_kept(s, who, i);
    }
    lemma_power_of_two_positive(s.cap);
    let n = s.claims.len() as int;
    assert forall|j: int| 0 <= j < s.cells.len() implies !(#[trigger] s.cells[j]).occupied by {
        // The free range is a whole ring long, so some count in it names cell `j`.
        let base = n - n % (s.cap as int);
        let c = if base + j >= n {
            base + j
        } else {
            base + j + s.cap
        };
        vstd::arithmetic::div_mod::lemma_mod_bound(n, s.cap as int);
        vstd::arithmetic::div_mod::lemma_fundamental_div_mod(n, s.cap as int);
        assert(base == (s.cap as int) * (n / (s.cap as int)));
        vstd::arithmetic::div_mod::lemma_fundamental_div_mod_converse(
            base + j,
            s.cap as int,
            n / (s.cap as int),
            j,
        );
        vstd::arithmetic::div_mod::lemma_mod_add_multiples_vanish(base + j, s.cap as int);
        assert(c % (s.cap as int) == j);
        assert(s.vacant(c));
    }
}

/// Gone senders stay gone. When no sender is left none can appear, since a
/// sender is only ever made from a sender.
pub proof fn lemma_senders_stay_gone<T>(pre: State<T>, post: State<T>, step: Step<T>)
    requires
        pre.producers.dom() =~= Set::<nat>::empty(),
        next(pre, post, step),
    ensures
        post.producers.dom() =~= Set::<nat>::empty(),
        post.claims == pre.claims,
{
}

/// The sender counts right. While the receiver lives a sender counts at
/// least two handles; once it is gone, a sender counts one exactly when it
/// is the last sender.
pub proof fn lemma_sender_alone_iff_last<T>(s: State<T>, who: nat)
    requires
        s.inv(),
        s.producers.dom().contains(who),
    ensures
        s.consumer is Some ==> !s.sender_finds_receiver_gone(),
        s.consumer is None ==> (s.sender_finds_receiver_gone() <==> s.producers.dom()
            =~= set![who]),
{
    let senders = s.producers.dom();
    let others = senders.remove(who);
    assert(senders.len() >= 1) by {
        if senders.len() == 0 {
            senders.lemma_len0_is_empty();
        }
    }
    if senders.len() == 1 {
        assert(others.len() == 0);
        others.lemma_len0_is_empty();
        assert(senders =~= others.insert(who));
    }
    if senders =~= set![who] {
        assert(senders.len() == 1) by {
            assert(set![who].len() == 1);
        }
    }
}

/// A state of a ring of one cell with the senders 0 and 1 and the receiver.
spec fn duo<T>(
    cell: CellState<T>,
    cursors: (usize, usize),
    senders: (Producer<T>, Producer<T>),
    consumer: Consumer<T>,
    claims: Seq<Claim<T>>,
    received: Seq<Option<T>>,
    sent: (Seq<Ack<T>>, Seq<Ack<T>>),
) -> State<T> {
    State {
        cap: 1,
        cells: seq![cell],
        head: cursors.0,
        tail: cursors.1,
        producers: map![0nat => senders.0, 1nat => senders.1],
        consumer: Some(consumer),
        claims,
        received,
        sent: map![0nat => sent.0, 1nat => sent.1],
    }
}

/// `post` is where `step` leads from `pre`, shown field by field.
proof fn lemma_one_step<T>(pre: State<T>, post: State<T>, step: Step<T>)
    requires
        pre.enabled(step),
        pre.apply(step) =~~= post,
    ensures
        next(pre, post, step),
{
}

/// An overrun loses a value. In a ring of one cell, let a sender win the
/// cursor and pause before it writes; a second sender then finds the flag
/// still clear and wins the next cursor, which names the same cell. Both
/// write, both are told `Done`, and the receiver finds one value: the run
/// ends with the ring empty, every thread at rest, and the second sender's
/// value `b` acknowledged and nowhere.
pub proof fn lemma_overrun_loses_a_value<T>(a: T, b: T) -> (run: (Seq<State<T>>, Seq<Step<T>>))
    ensures
        is_run(1, run.0, run.1),
        !never_overruns(run.0, run.1),
        ({
            let end = run.0.last();
            &&& end.sent[0] == seq![Ack { ticket: 0, value: a }]
            &&& end.sent[1] == seq![Ack { ticket: 1, value: b }]
            &&& end.received == seq![Some(a)]
            &&& end.cells == seq![CellState { value: None::<T>, occupied: false }]
            &&& end.producers == map![0nat => Producer::<T>::Idle, 1nat => Producer::<T>::Idle]
            &&& end.consumer == Some(Consumer::<T>::Idle)
        }),
{
    let bare = CellState { value: None::<T>, occupied: false };
    let idle = Producer::<T>::Idle;
    let rest = Consumer::<T>::Idle;
    let none = Seq::<Claim<T>>::empty();
    let one = seq![Claim { owner: 0, value: a }];
    let two = seq![Claim { owner: 0, value: a }, Claim { owner: 1, value: b }];
    let owning_a = Producer::Owning { value: a, head: 0, ticket: 0 };
    let filled_a = Producer::Filled { value: a, head: 0, ticket: 0 };
    let owning_b = Producer::Owning { value: b, head: 1, ticket: 1 };
    let filled_b = Producer::Filled { value: b, head: 1, ticket: 1 };
    let ack_a = seq![Ack { ticket: 0, value: a }];
    let ack_b = seq![Ack { ticket: 1, value: b }];
    let no_ack = Seq::<Ack<T>>::empty();
    let got = Seq::<Option<T>>::empty();

    let steps = seq![
        Step::CloneSender { from: 0, fresh: 1 },
        Step::Aim { who: 0, value: a },
        Step::Look { who: 0 },
        Step::Claim { who: 0 },
        Step::Aim { who: 1, value: b },
        Step::Look { who: 1 },
        Step::Claim { who: 1 },
        Step::Write { who: 1 },
        Step::Publish { who: 1 },
        Step::Write { who: 0 },
        Step::Publish { who: 0 },
        Step::Peek,
        Step::Take,
        Step::Free,
        Step::Advance,
    ];
    let states = seq![
        State::<T>::init(1),
        duo(bare, (0, 0), (idle, idle), rest, none, got, (no_ack, no_ack)),
        duo(
            bare,
            (0, 0),
            (Producer::Aimed { value: a, head: 0 }, idle),
            rest,
            none,
            got,
            (no_ack, no_ack),
        ),
        duo(
            bare,
            (0, 0),
            (Producer::Poised { value: a, head: 0 }, idle),
            rest,
            none,
            got,
            (no_ack, no_ack),
        ),
        duo(bare, (1, 0), (owning_a, idle), rest, one, got, (no_ack, no_ack)),
        duo(
            bare,
            (1, 0),
            (owning_a, Producer::Aimed { value: b, head: 1 }),
            rest,
            one,
            got,
            (no_ack, no_ack),
        ),
        duo(
            bare,
            (1, 0),
            (owning_a, Producer::Poised { value: b, head: 1 }),
            rest,
            one,
            got,
            (no_ack, no_ack),
        ),
        duo(bare, (2, 0), (owning_a, owning_b), rest, two, got, (no_ack, no_ack)),
        duo(
            CellState { value: Some(b), occupied: false },
            (2, 0),
            (owning_a, filled_b),
            rest,
            two,
            got,
            (no_ack, no_ack),
        ),
        duo(
            CellState { value: Some(b), occupied: true },
            (2, 0),
            (owning_a, idle),
            rest,
            two,
            got,
            (no_ack, ack_b),
        ),
        duo(
            CellState { value: Some(a), occupied: true },
            (2, 0),
            (filled_a, idle),
            rest,
            two,
            got,
            (no_ack, ack_b),
        ),
        duo(
            CellState { value: Some(a), occupied: true },
            (2, 0),
            (idle, idle),
            rest,
            two,
            got,
            (ack_a, ack_b),
        ),
        duo(
            CellState { value: Some(a), occupied: true },
            (2, 0),
            (idle, idle),
            Consumer::Reading,
            two,
            got,
            (ack_a, ack_b),
        ),
        duo(
            CellState { value: None, occupied: true },
            (2, 0),
            (idle, idle),
            Consumer::Freeing { value: Some(a) },
            two,
            got,
            (ack_a, ack_b),
        ),
        duo(
            bare,
            (2, 0),
            (idle, idle),
            Consumer::Stepping { value: Some(a) },
            two,
            got,
            (ack_a, ack_b),
        ),
        duo(bare, (2, 1), (idle, idle), rest, two, seq![Some(a)], (ack_a, ack_b)),
    ];
    assert(valid_capacity(1)) by {
        vstd::arithmetic::power2::lemma2_to64();
        assert(1 == vstd::arithmetic::power2::pow2(0));
    }
    lemma_one_step(states[0], states[1], steps[0]);
    lemma_one_step(states[1], states[2], steps[1]);
    lemma_one_step(states[2], states[3], steps[2]);
    lemma_one_step(states[3], states[4], steps[3]);
    lemma_one_step(states[4], states[5], steps[4]);
    lemma_one_step(states[5], states[6], steps[5]);
    lemma_one_step(states[6], states[7], steps[6]);
    lemma_one_step(states[7], states[8], steps[7]);
    lemma_one_step(states[8], states[9], steps[8]);
    lemma_one_step(states[9], states[10], steps[9]);
    lemma_one_step(states[10], states[11], steps[10]);
    lemma_one_step(states[11], states[12], steps[11]);
    lemma_one_step(states[12], states[13], steps[12]);
    lemma_one_step(states[13], states[14], steps[13]);
    lemma_one_step(states[14], states[15], steps[14]);
    assert(states[6].overruns(steps[6]));
    (states, steps)
}

/// A state of a ring of one cell with the receiver and at most the sender 0.
spec fn solo<T>(
    cell: CellState<T>,
    head: usize,
    producers: Map<nat, Producer<T>>,
    consumer: Consumer<T>,
    claims: Seq<Claim<T>>,
    sent: Seq<Ack<T>>,
) -> State<T> {
    State {
        cap: 1,
        cells: seq![cell],
        head,
        tail: 0,
        producers,
        consumer: Some(consumer),
        claims,
        received: Seq::empty(),
        sent: map![0nat => sent],
    }
}

/// A count that comes late leaves a value behind. Let the receiver find the
/// ring empty while a sender lives; before the receiver counts the handles,
/// the sender pushes a value and is dropped. The count then finds the
/// receiver alone, and the attempt ends `Disconnected` although the value
/// waits in the ring. No claim overruns in this run: the order of look and
/// count protects only the values pushed before the look.
pub proof fn lemma_late_count_leaves_a_value<T>(a: T) -> (run: (Seq<State<T>>, Seq<Step<T>>))
    ensures
        is_run(1, run.0, run.1),
        never_overruns(run.0, run.1),
        ({
            let end = run.0.last();
            &&& end.enabled(Step::Count)
            &&& end.attempt_outcome(Step::Count) == Some(
                Err::<T, TryRecvError>(TryRecvError::Disconnected),
            )
            &&& end.sent[0] == seq![Ack { ticket: 0, value: a }]
            &&& end.cells == seq![CellState { value: Some(a), occupied: true }]
            &&& end.received == Seq::<Option<T>>::empty()
        }),
{
    let bare = CellState { value: None::<T>, occupied: false };
    let missed = Consumer::<T>::Missed { alone: false };
    let none = Seq::<Claim<T>>::empty();
    let one = seq![Claim { owner: 0, value: a }];
    let no_ack = Seq::<Ack<T>>::empty();
    let ack_a = seq![Ack { ticket: 0, value: a }];
    let steps = seq![
        Step::Peek,
        Step::Aim { who: 0, value: a },
        Step::Look { who: 0 },
        Step::Claim { who: 0 },
        Step::Write { who: 0 },
        Step::Publish { who: 0 },
        Step::DropSender { who: 0 },
    ];
    let states = seq![
        State::<T>::init(1),
        solo(bare, 0, map![0nat => Producer::<T>::Idle], missed, none, no_ack),
        solo(bare, 0, map![0nat => Producer::Aimed { value: a, head: 0 }], missed, none, no_ack),
        solo(bare, 0, map![0nat => Producer::Poised { value: a, head: 0 }], missed, none, no_ack),
        solo(
            bare,
            1,
            map![0nat => Producer::Owning { value: a, head: 0, ticket: 0 }],
            missed,
            one,
            no_ack,
        ),
        solo(
            CellState { value: Some(a), occupied: false },
            1,
            map![0nat => Producer::Filled { value: a, head: 0, ticket: 0 }],
            missed,
            one,
            no_ack,
        ),
        solo(
            CellState { value: Some(a), occupied: true },
            1,
            map![0nat => Producer::<T>::Idle],
            missed,
            one,
            ack_a,
        ),
        solo(CellState { value: Some(a), occupied: true }, 1, Map::empty(), missed, one, ack_a),
    ];
    assert(valid_capacity(1)) by {
        vstd::arithmetic::power2::lemma2_to64();
        assert(1 == vstd::arithmetic::power2::pow2(0));
    }
    assert(states[0].holders() == 2) by {
        assert(states[0].producers.dom() =~= set![0nat]);
    }
    lemma_one_step(states[0], states[1], steps[0]);
    lemma_one_step(states[1], states[2], steps[1]);
    lemma_one_step(states[2], states[3], steps[2]);
    lemma_one_step(states[3], states[4], steps[3]);
    lemma_one_step(states[4], states[5], steps[4]);
    lemma_one_step(states[5], states[6], steps[5]);
    lemma_one_step(states[6], states[7], steps[6]);
    assert(states[7].holders() == 1) by {
        assert(states[7].producers.dom() =~= Set::<nat>::empty());
    }
    (states, steps)
}

} // verus!
