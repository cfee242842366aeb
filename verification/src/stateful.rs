use vstd::prelude::*;

use std::marker::PhantomData;

use crate::actor::{Actor, Handler, Message};
use crate::context::Context;

verus! {

// ── StateHandler trait ──────────────────────────────────────
/// Implemented by an actor to handle messages differently depending on
/// the current state in a state machine cycle.
///
/// After each message is processed, the state machine automatically
/// advances to the next state. When the last state's handler completes,
/// the cycle restarts from the initial state.
pub trait StateHandler<M: Message, S: Clone + Send + 'static>: Actor {
    /// Returns the initial state for the state machine.
    fn initial_state() -> S;

    /// Returns the ordered sequence of states. The machine cycles through
    /// these in order, processing one message per state. The sequence must
    /// not be empty.
    fn state_sequence() -> (r: Vec<S>)
        ensures
            r@.len() > 0,
    ;

    /// Handle a message in the given state. `idx` is the position in the
    /// state sequence (0-based).
    fn handle_in_state(&mut self, idx: usize, state: &S, msg: M, ctx: &mut Context) -> M::Result;
}

/// The position reached from `start` after `k` messages, in a cycle of `n`
/// states: each message moves one state on, and the last wraps to the first.
pub open spec fn after_messages(start: nat, n: nat, k: nat) -> nat
    decreases k,
{
    if k == 0 {
        start
    } else {
        (after_messages(start, n, (k - 1) as nat) + 1) % n
    }
}

/// A non-empty sequence of states together with the position of the
/// current one.
pub struct StateCycle<S> {
    current: usize,
    states: Vec<S>,
}

impl<S> StateCycle<S> {
    /// The current position always names one of the states.
    #[verifier::type_invariant]
    spec fn cycle_ok(self) -> bool {
        0 < self.states@.len() && self.current < self.states@.len()
    }

    /// The position of the current state in the sequence.
    pub closed spec fn index(&self) -> nat {
        self.current as nat
    }

    /// The state sequence.
    pub closed spec fn states(&self) -> Seq<S> {
        self.states@
    }

    /// A cycle over `states` positioned at the first; `None` exactly when
    /// `states` is empty.
    pub fn new(states: Vec<S>) -> (r: Option<Self>)
        ensures
            r is None <==> states@.len() == 0,
            r matches Some(c) ==> c.index() == 0 && c.states() == states@,
    {
        if states.len() == 0 {
            None
        } else {
            Some(StateCycle { current: 0, states })
        }
    }

    /// A cycle over `states` positioned at `current`.
    pub fn starting_at(states: Vec<S>, current: usize) -> (r: Self)
        requires
            current < states@.len(),
        ensures
            r.index() == current,
            r.states() == states@,
    {
        StateCycle { current, states }
    }

    pub fn current_index(&self) -> (r: usize)
        ensures
            r == self.index(),
            r < self.states().len(),
    {
        proof {
            use_type_invariant(self);
        }
        self.current
    }

    pub fn current_state(&self) -> (r: &S)
        ensures
            self.index() < self.states().len(),
            *r == self.states()[self.index() as int],
    {
        proof {
            use_type_invariant(self);
        }
        &self.states[self.current]
    }

    /// Moves to the next state, from the last back to the first.
    pub fn advance(&mut self)
        ensures
            final(self).index() == after_messages(old(self).index(), old(self).states().len(), 1),
            final(self).states() == old(self).states(),
    {
        proof {
            use_type_invariant(&*self);
        }
        let n = self.states.len();
        self.current = (self.current + 1) % n;
        assert(after_messages(old(self).index(), n as nat, 0) == old(self).index());
    }
}

// ── StateMachine wrapper ────────────────────────────────────
/// Wraps an actor that implements `StateHandler<M, S>` and provides
/// automatic state transitions.
///
/// The state machine cycles through the state sequence, processing one
/// message per state:
///
/// ```text
///   State[0] ──msg──> State[1] ──msg──> ... ──msg──> State[N-1]
///      ▲                                                 │
///      └─────────────────────────────────────────────────┘
/// ```
pub struct StateMachine<A, M, S> where
    A: StateHandler<M, S>,
    M: Message,
    S: Clone + Send + 'static,
 {
    inner: A,
    cycle: StateCycle<S>,
    _msg: PhantomData<M>,
}

impl<A, M, S> StateMachine<A, M, S> where
    A: StateHandler<M, S>,
    M: Message,
    S: Clone + Send + 'static,
 {
    /// The position of the current state in the sequence.
    pub closed spec fn index(&self) -> nat {
        self.cycle.index()
    }

    /// The state sequence the machine cycles through.
    pub closed spec fn states(&self) -> Seq<S> {
        self.cycle.states()
    }

    /// The wrapped actor.
    pub closed spec fn wrapped(&self) -> A {
        self.inner
    }

    /// Create a new state machine wrapping the given actor.
    /// The actor starts in `A::initial_state()`: at the first position of
    /// the sequence `A::state_sequence()` that holds a state equal to it, or
    /// at the first state where none does.
    pub fn new(inner: A) -> (sm: Self)
        where
            S: PartialEq,
        ensures
            exists|states: Vec<S>, init: S|
                {
                    &&& call_ensures(A::state_sequence, (), states)
                    &&& call_ensures(A::initial_state, (), init)
                    &&& sm.states() == states@
                    &&& sm.wrapped() == inner
                    &&& forall|j: int|
                        0 <= j < sm.index() ==> call_ensures(S::eq, (&states@[j], &init), false)
                    &&& (call_ensures(S::eq, (&states@[sm.index() as int], &init), true) || (
                    sm.index() == 0 && forall|j: int|
                        0 <= j < states@.len() ==> call_ensures(
                            S::eq,
                            (&states@[j], &init),
                            false,
                        )))
                },
    {
        let states = A::state_sequence();
        let init = A::initial_state();
        let n = states.len();
        let mut i: usize = 0;
        let mut found = false;
        while i < n && !found
            invariant
                n == states@.len(),
                i <= n,
                found ==> i < n && call_ensures(S::eq, (&states@[i as int], &init), true),
                forall|j: int| 0 <= j < i ==> call_ensures(S::eq, (&states@[j], &init), false),
            decreases n - i + (if found { 0int } else { 1int }),
        {
            if states[i] == init {
                found = true;
            } else {
                i += 1;
            }
        }
        let start = if found { i } else { 0 };
        let ghost seq_states = states;
        let cycle = StateCycle::starting_at(states, start);
        let sm = StateMachine { inner, cycle, _msg: PhantomData };
        assert(sm.states() == seq_states@);
        assert(call_ensures(S::eq, (&seq_states@[sm.index() as int], &init), true) || (sm.index()
            == 0 && forall|j: int|
            0 <= j < seq_states@.len() ==> call_ensures(S::eq, (&seq_states@[j], &init), false)));
        sm
    }

    /// A state machine over the given sequence of states, starting in the
    /// first. Returns `None` exactly when the sequence is empty.
    pub fn with_states(inner: A, states: Vec<S>) -> (r: Option<Self>)
        ensures
            r is None <==> states@.len() == 0,
            r matches Some(sm) ==> sm.index() == 0 && sm.states() == states@ && sm.wrapped() == inner,
    {
        match StateCycle::new(states) {
            Some(cycle) => Some(StateMachine { inner, cycle, _msg: PhantomData }),
            None => None,
        }
    }

    /// Returns the index of the current state.
    pub fn current_index(&self) -> (r: usize)
        ensures
            r == self.index(),
            r < self.states().len(),
    {
        self.cycle.current_index()
    }

    /// Returns the current state.
    pub fn current_state(&self) -> (r: &S)
        ensures
            self.index() < self.states().len(),
            *r == self.states()[self.index() as int],
    {
        self.cycle.current_state()
    }

    /// Returns a reference to the inner actor.
    pub fn inner(&self) -> (r: &A)
        ensures
            *r == self.wrapped(),
    {
        &self.inner
    }

    /// Returns a mutable reference to the inner actor.
    pub fn inner_mut(&mut self) -> (r: &mut A)
        ensures
            *r == old(self).wrapped(),
            final(self).wrapped() == *final(r),
            final(self).index() == old(self).index(),
            final(self).states() == old(self).states(),
    {
        &mut self.inner
    }

    /// Consume the state machine and return the inner actor.
    pub fn into_inner(self) -> (r: A)
        ensures
            r == self.wrapped(),
    {
        self.inner
    }
}

impl<A, M, S> Actor for StateMachine<A, M, S> where
    A: StateHandler<M, S>,
    M: Message,
    S: Clone + Send + 'static,
 {
    /// Runs the wrapped actor's `started` hook: the wrapped actor and the
    /// context change as that call changes them; the position and the states
    /// stay.
    fn started(&mut self, ctx: &mut Context)
        ensures
            exists|a: &mut A, c: &mut Context|
                {
                    &&& *a == old(self).wrapped()
                    &&& *final(a) == final(self).wrapped()
                    &&& *c == *old(ctx)
                    &&& *final(c) == *final(ctx)
                    &&& call_ensures(A::started, (a, c), ())
                },
            final(self).index() == old(self).index(),
            final(self).states() == old(self).states(),
    {
        self.inner.started(ctx);
    }

    /// Runs the wrapped actor's `stopped` hook: the wrapped actor and the
    /// context change as that call changes them; the position and the states
    /// stay.
    fn stopped(&mut self, ctx: &mut Context)
        ensures
            exists|a: &mut A, c: &mut Context|
                {
                    &&& *a == old(self).wrapped()
                    &&& *final(a) == final(self).wrapped()
                    &&& *c == *old(ctx)
                    &&& *final(c) == *final(ctx)
                    &&& call_ensures(A::stopped, (a, c), ())
                },
            final(self).index() == old(self).index(),
            final(self).states() == old(self).states(),
    {
        self.inner.stopped(ctx);
    }
}

impl<A, M, S> Handler<M> for StateMachine<A, M, S> where
    A: StateHandler<M, S>,
    M: Message,
    S: Clone + Send + 'static,
 {
    /// Handles the message in the current state, then moves on to the next
    /// state, wrapping around after the last. The wrapped actor's
    /// `handle_in_state` runs once, with the current position and state; its
    /// result is returned, and the wrapped actor and the context change as
    /// that call changes them.
    fn handle(&mut self, msg: M, ctx: &mut Context) -> (r: M::Result)
        ensures
            exists|a: &mut A, c: &mut Context|
                {
                    &&& *a == old(self).wrapped()
                    &&& *final(a) == final(self).wrapped()
                    &&& *c == *old(ctx)
                    &&& *final(c) == *final(ctx)
                    &&& call_ensures(
                        A::handle_in_state,
                        (
                            a,
                            old(self).index() as usize,
                            &old(self).states()[old(self).index() as int],
                            msg,
                            c,
                        ),
                        r,
                    )
                },
            final(self).index() == after_messages(old(self).index(), old(self).states().len(), 1),
            final(self).states() == old(self).states(),
    {
        let idx = self.cycle.current_index();
        let result = self.inner.handle_in_state(idx, self.cycle.current_state(), msg, ctx);
        self.cycle.advance();
        result
    }
}

/// Cycling: starting anywhere in a cycle of `n` states, `k` messages move
/// the machine `k` states on, modulo `n`; so every `n` messages bring it
/// back to where it started, and from the initial state the position
/// after `k` messages is `k % n`.
pub proof fn lemma_cycle(start: nat, n: nat, k: nat)
    requires
        0 < n,
        start < n,
    ensures
        after_messages(start, n, k) == (start + k) % n,
        after_messages(start, n, n) == start,
        after_messages(0, n, k) == k % n,
    decreases k,
{
    lemma_cycle_mod(start, n, k);
    lemma_cycle_mod(start, n, n);
    lemma_cycle_mod(0, n, k);
    vstd::arithmetic::div_mod::lemma_mod_add_multiples_vanish(start as int, n as int);
    vstd::arithmetic::div_mod::lemma_small_mod(start, n);
}

proof fn lemma_cycle_mod(start: nat, n: nat, k: nat)
    requires
        0 < n,
        start < n,
    ensures
        after_messages(start, n, k) == (start + k) % n,
    decreases k,
{
    if k == 0 {
        vstd::arithmetic::div_mod::lemma_small_mod(start, n);
    } else {
        lemma_cycle_mod(start, n, (k - 1) as nat);
        vstd::arithmetic::div_mod::lemma_add_mod_noop_right(1, (start + k - 1) as int, n as int);
    }
}

} // verus!
