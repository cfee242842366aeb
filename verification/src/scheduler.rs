use vstd::prelude::*;

use std::collections::HashMap;
use std::collections::VecDeque;

use crate::actor::ActorId;
use crate::seqs::{lemma_filter_positions, lemma_filter_unique, lemma_filter_within, other_than};

verus! {

broadcast use {vstd::std_specs::hash::group_hash_axioms, vstd::seq_lib::group_filter_ensures};

/// A message on its way to one actor: the target's id and what to run.
///
/// What `dispatch` holds is up to the runtime; the scheduler only moves
/// envelopes around and never looks inside them.
pub struct Envelope<D> {
    pub actor_id: ActorId,
    pub dispatch: D,
}

/// The abstract state of a scheduler: each actor's mailbox, oldest message
/// first, and the queue of actors that are due for a turn.
#[verifier::ext_equal]
pub struct SchedState<D> {
    pub boxes: Map<u64, Seq<Envelope<D>>>,
    pub ready: Seq<ActorId>,
}

/// The actors at the front of `ready` that have no pending message are
/// skipped and dropped; the first one with a message is taken off the queue
/// and returned together with what is left behind it.
pub open spec fn skip_idle<D>(boxes: Map<u64, Seq<Envelope<D>>>, ready: Seq<ActorId>) -> (Option<
    ActorId,
>, Seq<ActorId>)
    decreases ready.len(),
{
    if ready.len() == 0 {
        (None, Seq::empty())
    } else if pending_in(boxes, ready[0]).len() > 0 {
        (Some(ready[0]), ready.drop_first())
    } else {
        skip_idle(boxes, ready.drop_first())
    }
}

/// The messages waiting for `id` (empty when it has no mailbox).
pub open spec fn pending_in<D>(boxes: Map<u64, Seq<Envelope<D>>>, id: ActorId) -> Seq<Envelope<D>> {
    if boxes.contains_key(id.0) {
        boxes[id.0]
    } else {
        Seq::empty()
    }
}

impl<D> SchedState<D> {
    pub open spec fn pending(self, id: ActorId) -> Seq<Envelope<D>> {
        pending_in(self.boxes, id)
    }

    pub open spec fn has_pending(self, id: ActorId) -> bool {
        self.pending(id).len() > 0
    }

    /// Every mailbox holds only envelopes addressed to its own actor.
    pub open spec fn well_keyed(self) -> bool {
        forall|k: u64, i: int|
            #![trigger self.boxes[k][i]]
            self.boxes.contains_key(k) && 0 <= i < self.boxes[k].len() ==> self.boxes[k][i].actor_id.0
                == k
    }

    /// The message joins the back of its actor's mailbox; the actor joins the
    /// back of the ready queue unless it is already queued.
    pub open spec fn enqueue_spec(self, e: Envelope<D>) -> SchedState<D> {
        let id = e.actor_id;
        SchedState {
            boxes: self.boxes.insert(id.0, self.pending(id).push(e)),
            ready: if self.ready.contains(id) {
                self.ready
            } else {
                self.ready.push(id)
            },
        }
    }

    pub open spec fn next_ready_spec(self) -> (Option<ActorId>, SchedState<D>) {
        let (r, rest) = skip_idle(self.boxes, self.ready);
        (r, SchedState { boxes: self.boxes, ready: rest })
    }

    /// The oldest message of `id` leaves its mailbox.
    pub open spec fn dequeue_spec(self, id: ActorId) -> (Option<Envelope<D>>, SchedState<D>) {
        if self.has_pending(id) {
            (
                Some(self.pending(id)[0]),
                SchedState {
                    boxes: self.boxes.insert(id.0, self.pending(id).drop_first()),
                    ready: self.ready,
                },
            )
        } else {
            (None, self)
        }
    }

    /// An actor with messages left goes to the back of the ready queue; one
    /// whose mailbox is empty loses its mailbox.
    pub open spec fn requeue_spec(self, id: ActorId) -> SchedState<D> {
        if self.has_pending(id) {
            SchedState { boxes: self.boxes, ready: self.ready.push(id) }
        } else if self.boxes.contains_key(id.0) {
            SchedState { boxes: self.boxes.remove(id.0), ready: self.ready }
        } else {
            self
        }
    }

    /// The actor's mailbox and every place it holds in the ready queue go.
    pub open spec fn remove_spec(self, id: ActorId) -> SchedState<D> {
        SchedState { boxes: self.boxes.remove(id.0), ready: self.ready.filter(other_than(id)) }
    }

    /// What a worker does once `id` has handled a message: an actor that
    /// keeps running is re-queued; one that stopped or failed is removed.
    pub open spec fn finish_spec(self, id: ActorId, running: bool) -> SchedState<D> {
        if running {
            self.requeue_spec(id)
        } else {
            self.remove_spec(id)
        }
    }

    /// One turn of a worker: pick the next ready actor, hand out its oldest
    /// message, and put the actor back in line if it has more.
    pub open spec fn turn(self) -> (Option<ActorId>, SchedState<D>) {
        let (r, s1) = self.next_ready_spec();
        match r {
            Some(id) => {
                let (_, s2) = s1.dequeue_spec(id);
                (Some(id), s2.requeue_spec(id))
            },
            None => (None, s1),
        }
    }

    /// The actors served by `n` consecutive turns, in order, and the state
    /// after them.
    pub open spec fn turns(self, n: nat) -> (Seq<ActorId>, SchedState<D>)
        decreases n,
    {
        if n == 0 {
            (Seq::empty(), self)
        } else {
            let (r, s1) = self.turn();
            let (rest, s2) = s1.turns((n - 1) as nat);
            match r {
                Some(id) => (seq![id] + rest, s2),
                None => (rest, s2),
            }
        }
    }
}

/// Per-worker round-robin scheduler for fair message dispatch.
///
/// Each actor has its own mailbox. The scheduler maintains a ready queue
/// and processes one message per actor per turn (round-robin), preventing
/// any single actor from starving others.
pub struct Scheduler<D> {
    mailboxes: HashMap<u64, VecDeque<Envelope<D>>>,
    ready_queue: VecDeque<ActorId>,
}

impl<D> View for Scheduler<D> {
    type V = SchedState<D>;

    closed spec fn view(&self) -> SchedState<D> {
        SchedState {
            boxes: self.mailboxes@.map_values(|q: VecDeque<Envelope<D>>| q@),
            ready: self.ready_queue@,
        }
    }
}

impl<D> Scheduler<D> {
    /// Mailboxes are keyed by their actor, and no actor is queued twice.
    pub open spec fn wf(&self) -> bool {
        &&& self@.well_keyed()
        &&& self@.ready.no_duplicates()
    }

    pub fn new() -> (s: Self)
        ensures
            s.wf(),
            s@.boxes == Map::<u64, Seq<Envelope<D>>>::empty(),
            s@.ready == Seq::<ActorId>::empty(),
    {
        let s = Scheduler { mailboxes: HashMap::new(), ready_queue: VecDeque::new() };
        assert(s@.boxes =~= Map::<u64, Seq<Envelope<D>>>::empty());
        s
    }

    /// Enqueue a message for an actor. If the actor isn't already in the
    /// ready queue, adds it.
    pub fn enqueue(&mut self, envelope: Envelope<D>)
        requires
            old(self).wf(),
        ensures
            final(self).wf(),
            final(self)@ == old(self)@.enqueue_spec(envelope),
    {
        let actor_id = envelope.actor_id;
        let ghost e = envelope;
        let ghost old_boxes = self@.boxes;
        let mut q = match self.mailboxes.remove(&actor_id.0) {
            Some(q) => q,
            None => VecDeque::new(),
        };
        assert(q@ == pending_in(old_boxes, actor_id));
        q.push_back(envelope);
        self.mailboxes.insert(actor_id.0, q);
        assert(self@.boxes =~= old_boxes.insert(actor_id.0, pending_in(old_boxes, actor_id).push(e)));
        if !self.contains_ready(actor_id) {
            self.ready_queue.push_back(actor_id);
        }
        proof {
            let s = self@;
            assert forall|k: u64, i: int|
                s.boxes.contains_key(k) && 0 <= i < s.boxes[k].len() implies #[trigger] s.boxes[k][i].actor_id.0
                == k by {
                if k != actor_id.0 {
                    assert(s.boxes[k] == old_boxes[k]);
                } else if i < s.boxes[k].len() - 1 {
                    assert(s.boxes[k][i] == pending_in(old_boxes, actor_id)[i]);
                }
            }
        }
    }

    /// Whether `id` is already waiting in the ready queue.
    fn contains_ready(&self, id: ActorId) -> (r: bool)
        ensures
            r == self@.ready.contains(id),
    {
        let n = self.ready_queue.len();
        let mut i: usize = 0;
        while i < n
            invariant
                n == self.ready_queue@.len(),
                i <= n,
                forall|j: int| 0 <= j < i ==> self.ready_queue@[j] != id,
            decreases n - i,
        {
            if self.ready_queue[i] == id {
                assert(self.ready_queue@[i as int] == id);
                return true;
            }
            i += 1;
        }
        false
    }

    /// Return the next ready actor ID in round-robin order. Skips actors
    /// whose mailboxes are empty or have been removed.
    pub fn next_ready(&mut self) -> (r: Option<ActorId>)
        requires
            old(self).wf(),
        ensures
            final(self).wf(),
            (r, final(self)@) == old(self)@.next_ready_spec(),
    {
        proof {
            lemma_ready_stays_unique(self@, Envelope { actor_id: ActorId(0), dispatch: arbitrary() }, ActorId(0));
        }
        let ghost boxes = self@.boxes;
        let ghost start = self@.ready;
        let len = self.ready_queue.len();
        let mut i: usize = 0;
        while i < len
            invariant
                self@.boxes == boxes,
                self@.well_keyed(),
                i <= len,
                self@.ready.len() == len - i,
                skip_idle(boxes, start) == skip_idle(boxes, self@.ready),
                skip_idle(boxes, start).1.no_duplicates(),
                old(self)@.boxes == boxes,
                old(self)@.ready == start,
            decreases len - i,
        {
            let ghost before = self@.ready;
            let id = match self.ready_queue.pop_front() {
                Some(id) => id,
                None => {
                    return None;
                },
            };
            assert(self@.ready == before.drop_first());
            if self.has_pending(id) {
                assert(pending_in(boxes, before[0]).len() > 0);
                assert(skip_idle(boxes, before) == (Some(id), self@.ready));
                return Some(id);
            }
            assert(skip_idle(boxes, before) == skip_idle(boxes, self@.ready));
            i += 1;
        }
        assert(self@.ready =~= Seq::<ActorId>::empty());
        None
    }

    /// Dequeue one message for the given actor.
    pub fn dequeue(&mut self, actor_id: ActorId) -> (r: Option<Envelope<D>>)
        requires
            old(self).wf(),
        ensures
            final(self).wf(),
            (r, final(self)@) == old(self)@.dequeue_spec(actor_id),
            r matches Some(e) ==> e.actor_id == actor_id,
    {
        let ghost old_boxes = self@.boxes;
        match self.mailboxes.remove(&actor_id.0) {
            None => {
                assert(self@.boxes =~= old_boxes);
                None
            },
            Some(mut q) => {
                let ghost before = q@;
                let r = q.pop_front();
                self.mailboxes.insert(actor_id.0, q);
                proof {
                    if before.len() > 0 {
                        assert(self@.boxes =~= old_boxes.insert(actor_id.0, before.drop_first()));
                        let s = self@;
                        assert forall|k: u64, i: int|
                            s.boxes.contains_key(k) && 0 <= i < s.boxes[k].len()
                                implies #[trigger] s.boxes[k][i].actor_id.0 == k by {
                            if k != actor_id.0 {
                                assert(s.boxes[k] == old_boxes[k]);
                            } else {
                                assert(s.boxes[k][i] == old_boxes[k][i + 1]);
                            }
                        }
                        assert(old_boxes[actor_id.0][0].actor_id.0 == actor_id.0);
                    } else {
                        assert(self@.boxes =~= old_boxes);
                    }
                }
                r
            },
        }
    }

    /// Re-queue an actor if it still has pending messages. Call after
    /// processing one of its messages, while the actor is out of the ready
    /// queue (as `next_ready` left it).
    pub fn requeue_if_ready(&mut self, actor_id: ActorId)
        requires
            old(self).wf(),
            !old(self)@.ready.contains(actor_id),
        ensures
            final(self).wf(),
            final(self)@ == old(self)@.requeue_spec(actor_id),
    {
        if self.has_pending(actor_id) {
            self.ready_queue.push_back(actor_id);
        } else {
            self.cleanup_empty(actor_id);
        }
        proof {
            lemma_ready_stays_unique(old(self)@, Envelope { actor_id, dispatch: arbitrary() }, actor_id);
        }
    }

    /// The first half of a worker's turn: pick the next ready actor and take
    /// its oldest message. `None` exactly when no queued actor has one.
    pub fn take_turn(&mut self) -> (r: Option<Envelope<D>>)
        requires
            old(self).wf(),
        ensures
            final(self).wf(),
            r is None <==> old(self)@.turn().0 is None,
            r is None ==> final(self)@ == old(self)@.turn().1,
            r matches Some(e) ==> {
                &&& old(self)@.turn().0 == Some(e.actor_id)
                &&& e == old(self)@.pending(e.actor_id)[0]
                &&& final(self)@ == old(self)@.next_ready_spec().1.dequeue_spec(e.actor_id).1
                &&& !final(self)@.ready.contains(e.actor_id)
                &&& final(self)@.requeue_spec(e.actor_id) == old(self)@.turn().1
            },
    {
        match self.next_ready() {
            Some(id) => {
                proof {
                    lemma_skip_idle(old(self)@.boxes, old(self)@.ready);
                }
                let r = self.dequeue(id);
                r
            },
            None => None,
        }
    }

    /// The second half of a worker's turn, once the actor `actor_id` has
    /// handled its message: re-queue it if it keeps running, remove it if it
    /// stopped or failed.
    pub fn finish_turn(&mut self, actor_id: ActorId, running: bool)
        requires
            old(self).wf(),
            !old(self)@.ready.contains(actor_id),
        ensures
            final(self).wf(),
            final(self)@ == old(self)@.finish_spec(actor_id, running),
    {
        if running {
            self.requeue_if_ready(actor_id);
        } else {
            self.remove_actor(actor_id);
        }
    }

    /// Remove an actor's mailbox entirely (called when actor stops).
    pub fn remove_actor(&mut self, actor_id: ActorId)
        requires
            old(self).wf(),
        ensures
            final(self).wf(),
            final(self)@ == old(self)@.remove_spec(actor_id),
    {
        proof {
            lemma_ready_stays_unique(self@, Envelope { actor_id, dispatch: arbitrary() }, actor_id);
        }
        let ghost old_boxes = self@.boxes;
        let ghost old_ready = self@.ready;
        self.mailboxes.remove(&actor_id.0);
        assert(self@.boxes =~= old_boxes.remove(actor_id.0));
        let mut kept: VecDeque<ActorId> = VecDeque::new();
        let n = self.ready_queue.len();
        let mut i: usize = 0;
        while i < n
            invariant
                n == self.ready_queue@.len(),
                self.ready_queue@ == old_ready,
                i <= n,
                kept@ == old_ready.take(i as int).filter(other_than(actor_id)),
            decreases n - i,
        {
            let id = self.ready_queue[i];
            proof {
                assert(old_ready.take(i + 1) == old_ready.take(i as int).push(id));
                old_ready.take(i as int).lemma_filter_push(id, other_than(actor_id));
            }
            if id != actor_id {
                kept.push_back(id);
            }
            i += 1;
        }
        assert(old_ready.take(n as int) == old_ready);
        self.ready_queue = kept;
        proof {
            let s = self@;
            assert forall|k: u64, i: int|
                s.boxes.contains_key(k) && 0 <= i < s.boxes[k].len() implies #[trigger] s.boxes[k][i].actor_id.0
                == k by {
                assert(s.boxes[k] == old_boxes[k]);
            }
        }
    }

    fn has_pending(&self, actor_id: ActorId) -> (r: bool)
        ensures
            r == self@.has_pending(actor_id),
    {
        match self.mailboxes.get(&actor_id.0) {
            Some(q) => q.len() > 0,
            None => false,
        }
    }

    fn cleanup_empty(&mut self, actor_id: ActorId)
        requires
            old(self).wf(),
            !old(self)@.has_pending(actor_id),
        ensures
            final(self).wf(),
            final(self)@ == old(self)@.requeue_spec(actor_id),
    {
        let ghost old_boxes = self@.boxes;
        let empty = match self.mailboxes.get(&actor_id.0) {
            Some(q) => q.len() == 0,
            None => false,
        };
        if empty {
            self.mailboxes.remove(&actor_id.0);
            assert(self@.boxes =~= old_boxes.remove(actor_id.0));
            proof {
                let s = self@;
                assert forall|k: u64, i: int|
                    s.boxes.contains_key(k) && 0 <= i < s.boxes[k].len()
                        implies #[trigger] s.boxes[k][i].actor_id.0 == k by {
                    assert(s.boxes[k] == old_boxes[k]);
                }
            }
        }
    }
}

/// A worker step is a turn: taking a turn and then finishing it for an
/// actor that keeps running gives exactly the state of `turn`; finishing it
/// for an actor that stopped gives that state with the actor removed. When
/// no actor has a message, taking a turn is the whole turn.
pub proof fn lemma_worker_step<D>(s: SchedState<D>)
    ensures
        ({
            let (a, s1) = s.next_ready_spec();
            match a {
                Some(id) => {
                    let s2 = s1.dequeue_spec(id).1;
                    &&& s.turn().0 == Some(id)
                    &&& s2.finish_spec(id, true) == s.turn().1
                    &&& s2.finish_spec(id, false) == s.turn().1.remove_spec(id)
                },
                None => s.turn() == (None::<ActorId>, s1),
            }
        }),
{
    let (a, s1) = s.next_ready_spec();
    if let Some(id) = a {
        let s2 = s1.dequeue_spec(id).1;
        let t = s2.requeue_spec(id);
        assert(t.remove_spec(id).boxes =~= s2.remove_spec(id).boxes);
        if s2.has_pending(id) {
            s2.ready.lemma_filter_push(id, other_than(id));
        }
        assert(t.remove_spec(id) =~= s2.remove_spec(id));
    }
}

/// A stopped actor gets no more messages: once a worker finishes a turn
/// for an actor that stopped or failed, no number of turns serves it until
/// it is sent a new message.
pub proof fn lemma_stopped_never_served<D>(s: SchedState<D>, id: ActorId, n: nat)
    ensures
        !s.finish_spec(id, false).turns(n).0.contains(id),
{
    lemma_removed_never_served(s, id, n);
}

/// Enqueueing only ever appends: the message joins the back of its actor's
/// mailbox and no other mailbox changes; the old ready queue is a prefix of
/// the new one, unchanged when the actor was already queued, and otherwise
/// followed by the actor alone.
pub proof fn lemma_enqueue_appends<D>(s: SchedState<D>, e: Envelope<D>)
    ensures
        ({
            let t = s.enqueue_spec(e);
            let id = e.actor_id;
            &&& t.pending(id) == s.pending(id).push(e)
            &&& forall|x: ActorId| x != id ==> #[trigger] t.pending(x) == s.pending(x)
            &&& t.ready.len() >= s.ready.len()
            &&& t.ready.take(s.ready.len() as int) == s.ready
            &&& s.ready.contains(id) ==> t.ready == s.ready
            &&& !s.ready.contains(id) ==> t.ready.len() == s.ready.len() + 1 && t.ready.last() == id
        }),
{
    let t = s.enqueue_spec(e);
    let id = e.actor_id;
    assert forall|x: ActorId| x != id implies #[trigger] t.pending(x) == s.pending(x) by {
        assert(x.0 != id.0);
    }
    assert(t.ready.take(s.ready.len() as int) =~= s.ready);
}

/// Dequeueing hands out the oldest message of that actor, if it has one,
/// and leaves the rest of its mailbox in order; no other mailbox and not
/// the ready queue change.
pub proof fn lemma_dequeue_takes_oldest<D>(s: SchedState<D>, id: ActorId)
    ensures
        ({
            let (r, t) = s.dequeue_spec(id);
            &&& r is Some <==> s.pending(id).len() > 0
            &&& r matches Some(e) ==> e == s.pending(id)[0]
            &&& t.pending(id).len() == if s.pending(id).len() > 0 {
                s.pending(id).len() - 1
            } else {
                0
            }
            &&& forall|i: int|
                0 <= i < t.pending(id).len() ==> #[trigger] t.pending(id)[i] == s.pending(id)[i + 1]
            &&& forall|x: ActorId| x != id ==> #[trigger] t.pending(x) == s.pending(x)
            &&& t.ready == s.ready
        }),
{
    let (r, t) = s.dequeue_spec(id);
    assert forall|x: ActorId| x != id implies #[trigger] t.pending(x) == s.pending(x) by {
        assert(x.0 != id.0);
    }
}

/// Re-queueing after a turn: an actor with messages left goes to the back
/// of the ready queue, behind everyone already there; one without stays
/// out. No message is added or dropped.
pub proof fn lemma_requeue_goes_last<D>(s: SchedState<D>, id: ActorId)
    ensures
        ({
            let t = s.requeue_spec(id);
            &&& forall|x: ActorId| #[trigger] t.pending(x) == s.pending(x)
            &&& t.ready.take(s.ready.len() as int) == s.ready
            &&& s.has_pending(id) ==> t.ready.len() == s.ready.len() + 1 && t.ready.last() == id
            &&& !s.has_pending(id) ==> t.ready == s.ready
        }),
{
    let t = s.requeue_spec(id);
    assert(t.ready.take(s.ready.len() as int) =~= s.ready);
    assert forall|x: ActorId| #[trigger] t.pending(x) == s.pending(x) by {
        if x.0 == id.0 {
            assert(x == id);
        }
    }
}

/// Removing an actor keeps the others in order: the new ready queue is the
/// old one with that actor's entries deleted. Its `k`-th entry is the old
/// entry at position `f[k]`; the positions increase; every old entry of
/// another actor is kept; and only that actor's mailbox goes.
pub proof fn lemma_remove_keeps_order<D>(s: SchedState<D>, id: ActorId) -> (f: Seq<int>)
    ensures
        f.len() == s.remove_spec(id).ready.len(),
        forall|k: int|
            0 <= k < f.len() ==> 0 <= #[trigger] f[k] < s.ready.len() && s.ready[f[k]]
                == s.remove_spec(id).ready[k],
        forall|k1: int, k2: int| 0 <= k1 < k2 < f.len() ==> f[k1] < f[k2],
        forall|i: int|
            0 <= i < s.ready.len() && #[trigger] s.ready[i] != id ==> exists|k: int|
                0 <= k < f.len() && f[k] == i,
        forall|k: int| 0 <= k < f.len() ==> s.remove_spec(id).ready[k] != id,
        forall|x: ActorId| x != id ==> #[trigger] s.remove_spec(id).pending(x) == s.pending(x),
        !s.remove_spec(id).has_pending(id),
{
    let f = lemma_filter_positions(s.ready, other_than(id));
    assert forall|i: int| 0 <= i < s.ready.len() && #[trigger] s.ready[i] != id implies exists|k: int|
        0 <= k < f.len() && f[k] == i by {
        assert(other_than(id)(s.ready[i]));
    }
    assert forall|k: int| 0 <= k < f.len() implies s.remove_spec(id).ready[k] != id by {
        assert(s.ready[f[k]] == s.remove_spec(id).ready[k]);
        assert(other_than(id)(s.ready.filter(other_than(id))[k]));
    }
    assert forall|x: ActorId| x != id implies #[trigger] s.remove_spec(id).pending(x) == s.pending(x) by {
        assert(x.0 != id.0);
    }
    f
}

/// What picking the next ready actor does, spelled out: it consumes a prefix
/// of the ready queue of length `j`; every actor in that prefix but the last
/// had nothing pending; when it returns an actor, that actor is the last of
/// the prefix and has messages waiting; when it returns none, no queued actor
/// had any and the whole queue was consumed.
pub proof fn lemma_skip_idle<D>(boxes: Map<u64, Seq<Envelope<D>>>, ready: Seq<ActorId>) -> (j: int)
    ensures
        0 <= j <= ready.len(),
        skip_idle(boxes, ready).1 == ready.skip(j),
        skip_idle(boxes, ready).0 is None ==> j == ready.len(),
        skip_idle(boxes, ready).0 is None ==> forall|i: int|
            0 <= i < ready.len() ==> pending_in(boxes, #[trigger] ready[i]).len() == 0,
        skip_idle(boxes, ready).0 matches Some(a) ==> {
            &&& j >= 1
            &&& a == ready[j - 1]
            &&& pending_in(boxes, a).len() > 0
            &&& forall|i: int| 0 <= i < j - 1 ==> pending_in(boxes, #[trigger] ready[i]).len() == 0
        },
    decreases ready.len(),
{
    if ready.len() == 0 {
        assert(ready.skip(0) =~= Seq::<ActorId>::empty());
        0
    } else if pending_in(boxes, ready[0]).len() > 0 {
        assert(ready.skip(1) =~= ready.drop_first());
        1
    } else {
        let rest = ready.drop_first();
        let j0 = lemma_skip_idle(boxes, rest);
        assert(rest.skip(j0) =~= ready.skip(j0 + 1));
        assert forall|i: int| 0 <= i < j0 implies pending_in(boxes, #[trigger] ready[i]).len() == 0 by {
            if i > 0 {
                assert(ready[i] == rest[i - 1]);
            }
        }
        if skip_idle(boxes, ready).0 is None {
            assert forall|i: int| 0 <= i < ready.len() implies pending_in(boxes, #[trigger] ready[i]).len()
                == 0 by {
                if i > 0 {
                    assert(ready[i] == rest[i - 1]);
                }
            }
        }
        j0 + 1
    }
}

/// A turn touches only the mailbox of the actor it serves.
proof fn lemma_turn_frame<D>(s: SchedState<D>, x: ActorId)
    ensures
        s.turn().0 != Some(x) ==> s.turn().1.pending(x) == s.pending(x),
{
    let (r, s1) = s.next_ready_spec();
    lemma_skip_idle(s.boxes, s.ready);
    if let Some(a) = r {
        if a != x {
            assert(a.0 != x.0);
        }
    }
}

/// The ready queue never lists an actor twice: enqueueing, picking,
/// dequeueing, removing and whole turns all keep it free of duplicates, and
/// so does re-queueing an actor that is not queued.
pub proof fn lemma_ready_stays_unique<D>(s: SchedState<D>, e: Envelope<D>, id: ActorId)
    requires
        s.ready.no_duplicates(),
    ensures
        s.enqueue_spec(e).ready.no_duplicates(),
        s.next_ready_spec().1.ready.no_duplicates(),
        s.dequeue_spec(id).1.ready.no_duplicates(),
        s.remove_spec(id).ready.no_duplicates(),
        !s.ready.contains(id) ==> s.requeue_spec(id).ready.no_duplicates(),
        s.turn().1.ready.no_duplicates(),
{
    let j = lemma_skip_idle(s.boxes, s.ready);
    let rest = s.ready.skip(j);
    assert(rest.no_duplicates()) by {
        assert forall|a: int, b: int| 0 <= a < b < rest.len() implies rest[a] != rest[b] by {
            assert(rest[a] == s.ready[a + j]);
            assert(rest[b] == s.ready[b + j]);
        }
    }
    lemma_filter_unique(s.ready, other_than(id));
    if let Some(a) = s.next_ready_spec().0 {
        let s1 = s.next_ready_spec().1;
        let s2 = s1.dequeue_spec(a).1;
        assert(s2.ready == rest);
        assert(!rest.contains(a)) by {
            if rest.contains(a) {
                let k = choose|k: int| 0 <= k < rest.len() && rest[k] == a;
                assert(rest[k] == s.ready[k + j]);
                assert(s.ready[j - 1] == a);
            }
        }
    }
}

/// The served sequence of fewer turns is a prefix of that of more turns.
proof fn lemma_turns_grow<D>(s: SchedState<D>, m: nat, n: nat, x: ActorId)
    requires
        m <= n,
        s.turns(m).0.contains(x),
    ensures
        s.turns(n).0.contains(x),
    decreases m,
{
    if m > 0 {
        let (r, s1) = s.turn();
        let rest_m = s1.turns((m - 1) as nat).0;
        let rest_n = s1.turns((n - 1) as nat).0;
        match r {
            Some(a) => {
                if x != a {
                    assert(rest_m.contains(x)) by {
                        let k = choose|k: int|
                            0 <= k < s.turns(m).0.len() && s.turns(m).0[k] == x;
                        assert(s.turns(m).0 == seq![a] + rest_m);
                        assert(rest_m[k - 1] == x);
                    }
                    lemma_turns_grow(s1, (m - 1) as nat, (n - 1) as nat, x);
                    let k2 = choose|k: int| 0 <= k < rest_n.len() && rest_n[k] == x;
                    assert((seq![a] + rest_n)[k2 + 1] == x);
                } else {
                    assert((seq![a] + rest_n)[0] == x);
                }
            },
            None => {
                lemma_turns_grow(s1, (m - 1) as nat, (n - 1) as nat, x);
            },
        }
    }
}

/// Round-robin order: when the first `k` actors of the ready queue all
/// have messages waiting, the next `k` turns serve exactly those actors,
/// one message each, in queue order.
pub proof fn lemma_round_robin<D>(s: SchedState<D>, k: nat)
    requires
        s.ready.no_duplicates(),
        k <= s.ready.len(),
        forall|i: int| 0 <= i < k ==> s.has_pending(#[trigger] s.ready[i]),
    ensures
        s.turns(k).0 == s.ready.take(k as int),
    decreases k,
{
    if k == 0 {
        assert(s.ready.take(0) =~= Seq::<ActorId>::empty());
    } else {
        let a = s.ready[0];
        assert(s.has_pending(a));
        let (r, s1) = s.turn();
        assert(r == Some(a));
        lemma_ready_stays_unique(s, Envelope { actor_id: a, dispatch: arbitrary() }, a);
        let rest = s.ready.drop_first();
        assert(s.next_ready_spec().1.ready == rest);
        assert forall|i: int| 0 <= i < k - 1 implies s1.has_pending(#[trigger] s1.ready[i]) by {
            assert(s1.ready[i] == rest[i]);
            assert(rest[i] == s.ready[i + 1]);
            assert(s.ready[i + 1] != a);
            lemma_turn_frame(s, s.ready[i + 1]);
            assert(s.has_pending(s.ready[i + 1]));
        }
        lemma_round_robin(s1, (k - 1) as nat);
        assert(s.turns(k).0 == seq![a] + s1.turns((k - 1) as nat).0);
        assert(s.ready.take(k as int) =~= seq![a] + s1.ready.take(k - 1)) by {
            assert forall|i: int| 0 <= i < k - 1 implies s1.ready[i] == s.ready[i + 1] by {
                assert(s1.ready[i] == rest[i]);
            }
        }
    }
}

/// No starvation: an actor at position `p` of a duplicate-free ready queue
/// that has a message waiting is served within the next `p + 1` turns,
/// whatever the actors in front of it hold.
pub proof fn lemma_no_starvation<D>(s: SchedState<D>, p: nat)
    requires
        s.ready.no_duplicates(),
        p < s.ready.len(),
        s.has_pending(s.ready[p as int]),
    ensures
        s.turns(p + 1).0.contains(s.ready[p as int]),
    decreases p,
{
    let x = s.ready[p as int];
    let j = lemma_skip_idle(s.boxes, s.ready);
    let (r, s1) = s.turn();
    let a = r->0;
    assert(j >= 1 && j - 1 <= p);
    lemma_ready_stays_unique(s, Envelope { actor_id: x, dispatch: arbitrary() }, x);
    let served = s.turns(p + 1).0;
    assert(served == seq![a] + s1.turns(p).0);
    if j - 1 == p {
        assert(served[0] == x);
    } else {
        let rest = s.ready.skip(j);
        let q = (p - j) as nat;
        assert(s1.ready[q as int] == rest[q as int]);
        assert(rest[q as int] == x);
        assert(x != a);
        lemma_turn_frame(s, x);
        lemma_no_starvation(s1, q);
        lemma_turns_grow(s1, q + 1, p, x);
        let k = choose|k: int| 0 <= k < s1.turns(p).0.len() && s1.turns(p).0[k] == x;
        assert(served[k + 1] == x);
    }
}

/// The actors served by fewer turns come first, in the same order, among
/// those served by more turns.
proof fn lemma_turns_prefix<D>(s: SchedState<D>, m: nat, n: nat)
    requires
        m <= n,
    ensures
        s.turns(m).0.len() <= s.turns(n).0.len(),
        forall|i: int| 0 <= i < s.turns(m).0.len() ==> #[trigger] s.turns(n).0[i] == s.turns(m).0[i],
    decreases m,
{
    if m > 0 {
        let (r, s1) = s.turn();
        lemma_turns_prefix(s1, (m - 1) as nat, (n - 1) as nat);
        let tm = s1.turns((m - 1) as nat).0;
        let tn = s1.turns((n - 1) as nat).0;
        if let Some(a) = r {
            assert(s.turns(m).0 == seq![a] + tm);
            assert(s.turns(n).0 == seq![a] + tn);
            assert forall|i: int| 0 <= i < s.turns(m).0.len() implies #[trigger] s.turns(n).0[i]
                == s.turns(m).0[i] by {
                if i > 0 {
                    assert(s.turns(n).0[i] == tn[i - 1]);
                    assert(s.turns(m).0[i] == tm[i - 1]);
                }
            }
        }
    }
}

/// One message per actor per turn: in a duplicate-free ready queue, before
/// the actor at position `p` (which has a message waiting) is served, no
/// actor is served twice, and only actors queued ahead of it are served.
/// The returned `k` is the turn, among the next `p + 1`, that serves it.
pub proof fn lemma_served_once_before<D>(s: SchedState<D>, p: nat) -> (k: int)
    requires
        s.ready.no_duplicates(),
        p < s.ready.len(),
        s.has_pending(s.ready[p as int]),
    ensures
        0 <= k <= p,
        k < s.turns(p + 1).0.len(),
        s.turns(p + 1).0[k] == s.ready[p as int],
        forall|i: int| 0 <= i < k ==> s.ready.take(p as int).contains(#[trigger] s.turns(p + 1).0[i]),
        s.turns(p + 1).0.take(k + 1).no_duplicates(),
    decreases p,
{
    let x = s.ready[p as int];
    let j = lemma_skip_idle(s.boxes, s.ready);
    let (r, s1) = s.turn();
    let a = r->0;
    assert(j >= 1 && j - 1 <= p);
    lemma_ready_stays_unique(s, Envelope { actor_id: x, dispatch: arbitrary() }, x);
    let served = s.turns(p + 1).0;
    let tail = s1.turns(p).0;
    assert(served == seq![a] + tail);
    if j - 1 == p {
        assert(served[0] == x);
        assert(served.take(1) =~= seq![x]);
        0
    } else {
        let rest = s.ready.skip(j);
        let q = (p - j) as nat;
        assert(s1.ready[q as int] == rest[q as int]);
        assert(rest[q as int] == x);
        assert(x != a);
        lemma_turn_frame(s, x);
        let k1 = lemma_served_once_before(s1, q);
        let t1 = s1.turns(q + 1).0;
        lemma_turns_prefix(s1, q + 1, p);
        assert(tail[k1] == x);
        let k = k1 + 1;
        assert(served[k] == x);
        // what the shorter run serves before `x` lies strictly between `a` and `x` in the queue
        assert forall|i: int| 0 <= i < k1 implies exists|m: int|
            j <= m < p && s.ready[m] == #[trigger] t1[i] by {
            assert(s1.ready.take(q as int).contains(t1[i]));
            let m1 = choose|m1: int| 0 <= m1 < q && s1.ready.take(q as int)[m1] == t1[i];
            assert(s1.ready[m1] == rest[m1]);
            assert(rest[m1] == s.ready[m1 + j]);
        }
        assert forall|i: int| 0 <= i < k implies s.ready.take(p as int).contains(#[trigger] served[i]) by {
            if i == 0 {
                assert(s.ready.take(p as int)[j - 1] == a);
            } else {
                assert(served[i] == tail[i - 1]);
                assert(tail[i - 1] == t1[i - 1]);
                let m = choose|m: int| j <= m < p && s.ready[m] == t1[i - 1];
                assert(s.ready.take(p as int)[m] == served[i]);
            }
        }
        let pre = served.take(k + 1);
        assert(pre =~= seq![a] + t1.take(k1 + 1)) by {
            assert forall|i: int| 0 < i < k + 1 implies pre[i] == t1[i - 1] by {
                assert(served[i] == tail[i - 1]);
            }
        }
        assert forall|u: int, v: int| 0 <= u < v < pre.len() implies pre[u] != pre[v] by {
            if u == 0 {
                assert(pre[v] == t1.take(k1 + 1)[v - 1]);
                if v - 1 == k1 {
                    assert(t1[k1] == x);
                } else {
                    let m = choose|m: int| j <= m < p && s.ready[m] == t1[v - 1];
                    assert(s.ready[j - 1] == a);
                }
            } else {
                assert(pre[u] == t1.take(k1 + 1)[u - 1]);
                assert(pre[v] == t1.take(k1 + 1)[v - 1]);
            }
        }
        k
    }
}

/// Delivery: once a message is enqueued, its actor is in the ready queue, at
/// some position `p`, with a message waiting; so it is served within the next
/// `p + 1` turns, however busy the actors ahead of it are.
pub proof fn lemma_enqueued_is_served<D>(s: SchedState<D>, e: Envelope<D>)
    requires
        s.ready.no_duplicates(),
    ensures
        exists|p: nat|
            p < s.enqueue_spec(e).ready.len() && #[trigger] s.enqueue_spec(e).turns(p + 1).0.contains(
                e.actor_id,
            ),
{
    let id = e.actor_id;
    let s1 = s.enqueue_spec(e);
    lemma_ready_stays_unique(s, e, id);
    assert(s1.pending(id).len() > 0);
    let p: int = if s.ready.contains(id) {
        choose|p: int| 0 <= p < s.ready.len() && s.ready[p] == id
    } else {
        s.ready.len() as int
    };
    assert(s1.ready[p] == id);
    lemma_no_starvation(s1, p as nat);
}

/// A removed actor is never scheduled again: from the moment its mailbox
/// is dropped, no number of turns serves it until it is sent a new message.
pub proof fn lemma_removed_never_served<D>(s: SchedState<D>, id: ActorId, n: nat)
    ensures
        !s.remove_spec(id).turns(n).0.contains(id),
{
    let s0 = s.remove_spec(id);
    assert(!s0.ready.contains(id)) by {
        if s0.ready.contains(id) {
            let k = choose|k: int| 0 <= k < s0.ready.len() && s0.ready[k] == id;
            assert(other_than(id)(s0.ready[k]));
        }
    }
    lemma_absent_never_served(s0, id, n);
}

/// An actor that is neither queued nor has messages is not served.
proof fn lemma_absent_never_served<D>(s: SchedState<D>, id: ActorId, n: nat)
    requires
        !s.ready.contains(id),
        !s.has_pending(id),
    ensures
        !s.turns(n).0.contains(id),
    decreases n,
{
    if n > 0 {
        let j = lemma_skip_idle(s.boxes, s.ready);
        let (r, s1) = s.turn();
        if let Some(a) = r {
            assert(s.ready[j - 1] == a);
            assert(a != id);
        }
        assert(!s1.ready.contains(id)) by {
            if s1.ready.contains(id) {
                let k = choose|k: int| 0 <= k < s1.ready.len() && s1.ready[k] == id;
                let rest = s.ready.skip(j);
                if k < rest.len() {
                    assert(s1.ready[k] == rest[k]);
                    assert(rest[k] == s.ready[k + j]);
                }
            }
        }
        lemma_turn_frame(s, id);
        lemma_absent_never_served(s1, id, (n - 1) as nat);
        let rest = s1.turns((n - 1) as nat).0;
        if let Some(a) = r {
            assert(s.turns(n).0 == seq![a] + rest);
            if s.turns(n).0.contains(id) {
                let k = choose|k: int| 0 <= k < s.turns(n).0.len() && s.turns(n).0[k] == id;
                assert(rest[k - 1] == id);
            }
        }
    }
}

/// Messages to one actor come out in the order they went in: two messages
/// enqueued for an idle actor are dequeued first-in, first-out.
pub proof fn lemma_mailbox_fifo<D>(s: SchedState<D>, e1: Envelope<D>, e2: Envelope<D>)
    requires
        e1.actor_id == e2.actor_id,
        !s.has_pending(e1.actor_id),
    ensures
        ({
            let id = e1.actor_id;
            let s2 = s.enqueue_spec(e1).enqueue_spec(e2);
            let (r1, s3) = s2.dequeue_spec(id);
            let (r2, s4) = s3.dequeue_spec(id);
            &&& r1 == Some(e1)
            &&& r2 == Some(e2)
            &&& !s4.has_pending(id)
        }),
{
    let id = e1.actor_id;
    let s2 = s.enqueue_spec(e1).enqueue_spec(e2);
    assert(s2.pending(id) =~= seq![e1, e2]);
    let s3 = s2.dequeue_spec(id).1;
    assert(s3.pending(id) =~= seq![e2]);
    let s4 = s3.dequeue_spec(id).1;
    assert(s4.pending(id) =~= Seq::<Envelope<D>>::empty());
}

} // verus!
