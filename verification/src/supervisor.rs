use vstd::prelude::*;

use std::collections::HashMap;

use crate::actor::ActorId;
use crate::context::Context;
use crate::seqs::{lemma_filter_within, other_than};

verus! {

broadcast use vstd::std_specs::hash::group_hash_axioms;

/// Supervision strategy determines how child failures are handled.
#[derive(Debug, Clone, Copy, PartialEq, Eq, Structural)]
pub enum Strategy {
    /// Only the failed child is restarted.
    OneForOne,
    /// If one child fails, all children are stopped and restarted.
    AllForOne,
}

/// Something that spawns a child actor and returns its ActorId.
///
/// Any closure `Fn(&mut Context) -> ActorId + Send` is a child factory.
pub trait ChildFactory: Send {
    /// The factory may be called on a context that holds `before`.
    spec fn spawn_ok(&self, before: Context) -> bool;

    /// Calling the factory on `c` may return `id` and leave `*final(c)` behind.
    spec fn spawn_outcome(&self, c: &mut Context, id: ActorId) -> bool;

    /// Spawn one child on `ctx` and return its id.
    fn spawn_child(&self, ctx: &mut Context) -> (r: ActorId)
        requires
            self.spawn_ok(*old(ctx)),
        ensures
            exists|c: &mut Context|
                {
                    &&& *c == *old(ctx)
                    &&& *final(c) == *final(ctx)
                    &&& self.spawn_outcome(c, r)
                },
    ;
}

impl<F: Fn(&mut Context) -> ActorId + Send> ChildFactory for F {
    open spec fn spawn_ok(&self, before: Context) -> bool {
        forall|c: &mut Context| *c == before ==> call_requires(*self, (c,))
    }

    open spec fn spawn_outcome(&self, c: &mut Context, id: ActorId) -> bool {
        call_ensures(*self, (c,), id)
    }

    /// Calls the closure: the id is what the closure returns, and the context
    /// changes as the closure changes it.
    fn spawn_child(&self, ctx: &mut Context) -> (r: ActorId) {
        let r = (self)(ctx);
        proof {
            assert(exists|c: &mut Context|
                {
                    &&& *c == *old(ctx)
                    &&& *final(c) == *final(ctx)
                    &&& call_ensures(*self, (c,), r)
                });
            let c = choose|c: &mut Context|
                {
                    &&& *c == *old(ctx)
                    &&& *final(c) == *final(ctx)
                    &&& call_ensures(*self, (c,), r)
                };
            assert(self.spawn_outcome(c, r));
        }
        r
    }
}

/// The abstract state of a supervisor: its factories in registration
/// order, its children, for each child the position of the factory that
/// made it, and the restart count of each child.
#[verifier::ext_equal]
pub struct SupState {
    pub strategy: Strategy,
    pub max_restarts: usize,
    pub factories: Seq<Box<dyn ChildFactory>>,
    pub children: Seq<ActorId>,
    pub origins: Seq<usize>,
    pub restart_counts: Map<u64, usize>,
}

/// Every value of `m` is at most `max`.
pub open spec fn bounded_by(m: Map<u64, usize>, max: usize) -> bool {
    forall|k: u64| #[trigger] m.contains_key(k) ==> m[k] <= max
}

/// The position of the first occurrence of `x` in `s`, if any.
pub open spec fn first_index(s: Seq<ActorId>, x: ActorId) -> Option<int>
    decreases s.len(),
{
    if s.len() == 0 {
        None
    } else if s[0] == x {
        Some(0)
    } else {
        match first_index(s.drop_first(), x) {
            Some(i) => Some(i + 1),
            None => None,
        }
    }
}

/// `m` with each of `ids`, in order, given the restart count `v`.
pub open spec fn with_counts(m: Map<u64, usize>, ids: Seq<ActorId>, v: usize) -> Map<u64, usize>
    decreases ids.len(),
{
    if ids.len() == 0 {
        m
    } else {
        with_counts(m, ids.drop_last(), v).insert(ids.last().0, v)
    }
}

/// The origins of the children that remain once every child `id` is
/// dropped: `origins[j]` stays exactly where `children[j]` does.
pub open spec fn kept_origins(children: Seq<ActorId>, origins: Seq<usize>, id: ActorId) -> Seq<
    usize,
>
    decreases children.len(),
{
    if children.len() == 0 || origins.len() == 0 {
        Seq::empty()
    } else {
        let rest = kept_origins(children.drop_last(), origins.drop_last(), id);
        if children.last() == id {
            rest
        } else {
            rest.push(origins.last())
        }
    }
}

/// The positions `0, 1, .., n - 1`.
pub open spec fn positions(n: nat) -> Seq<usize> {
    Seq::new(n, |j: int| j as usize)
}

impl SupState {
    /// Each child has an origin, each origin names a factory, and each
    /// factory may be called on any context.
    pub open spec fn wf(self) -> bool {
        &&& self.origins.len() == self.children.len()
        &&& forall|j: int| 0 <= j < self.origins.len() ==> #[trigger] self.origins[j] < self.factories.len()
        &&& forall|i: int, c: Context| 0 <= i < self.factories.len() ==> #[trigger] self.factories[i].spawn_ok(c)
    }

    /// How often the child `id` has been restarted so far.
    pub open spec fn count_of(self, id: ActorId) -> usize {
        if self.restart_counts.contains_key(id.0) {
            self.restart_counts[id.0]
        } else {
            0
        }
    }

    /// No restart count ever exceeds the limit.
    pub open spec fn counts_bounded(self) -> bool {
        bounded_by(self.restart_counts, self.max_restarts)
    }

    /// The failure of `id` is past the limit: the child is given up.
    pub open spec fn gives_up(self, id: ActorId) -> bool {
        self.count_of(id) >= self.max_restarts
    }

    /// The positions of the factories that a failure of `id` runs, in the
    /// order they run: none when the child is given up; under one-for-one
    /// the factory that made `id`; under all-for-one the factory of every
    /// child, in the children's order.
    pub open spec fn restart_factories(self, id: ActorId) -> Seq<usize> {
        if self.gives_up(id) {
            Seq::empty()
        } else {
            match self.strategy {
                Strategy::OneForOne => match first_index(self.children, id) {
                    Some(i) => seq![self.origins[i]],
                    None => Seq::empty(),
                },
                Strategy::AllForOne => self.origins,
            }
        }
    }

    /// How many children a failure of `id` restarts.
    pub open spec fn restarts_for(self, id: ActorId) -> nat {
        self.restart_factories(id).len()
    }

    /// The state after `id` failed, where `fresh` are the ids that the
    /// restarted children's factories returned, in the order they ran.
    pub open spec fn after_failure(self, id: ActorId, fresh: Seq<ActorId>) -> SupState {
        if self.gives_up(id) {
            SupState {
                children: self.children.filter(other_than(id)),
                origins: kept_origins(self.children, self.origins, id),
                restart_counts: self.restart_counts.remove(id.0),
                ..self
            }
        } else {
            match self.strategy {
                Strategy::OneForOne => match first_index(self.children, id) {
                    Some(i) => SupState {
                        children: self.children.update(i, fresh[0]),
                        restart_counts: self.restart_counts.remove(id.0).insert(
                            fresh[0].0,
                            (self.count_of(id) + 1) as usize,
                        ),
                        ..self
                    },
                    None => self,
                },
                Strategy::AllForOne => SupState {
                    children: fresh,
                    restart_counts: with_counts(
                        Map::empty(),
                        fresh,
                        (self.count_of(id) + 1) as usize,
                    ),
                    ..self
                },
            }
        }
    }
}

/// A supervisor manages child actors with a restart strategy.
///
/// When a child fails (panics), the supervisor applies its strategy
/// to restart the failed child (OneForOne) or all children (AllForOne).
pub struct Supervisor {
    strategy: Strategy,
    max_restarts: usize,
    child_factories: Vec<Box<dyn ChildFactory>>,
    child_ids: Vec<ActorId>,
    child_origins: Vec<usize>,
    restart_counts: HashMap<u64, usize>,
}

impl View for Supervisor {
    type V = SupState;

    closed spec fn view(&self) -> SupState {
        SupState {
            strategy: self.strategy,
            max_restarts: self.max_restarts,
            factories: self.child_factories@,
            children: self.child_ids@,
            origins: self.child_origins@,
            restart_counts: self.restart_counts@,
        }
    }
}

impl Supervisor {
    /// Create a new supervisor with the given strategy and max restarts per child.
    pub fn new(strategy: Strategy, max_restarts: usize) -> (s: Self)
        ensures
            s@.strategy == strategy,
            s@.max_restarts == max_restarts,
            s@.factories == Seq::<Box<dyn ChildFactory>>::empty(),
            s@.children == Seq::<ActorId>::empty(),
            s@.origins == Seq::<usize>::empty(),
            s@.restart_counts == Map::<u64, usize>::empty(),
            s@.wf(),
            s@.counts_bounded(),
    {
        Supervisor {
            strategy,
            max_restarts,
            child_factories: Vec::new(),
            child_ids: Vec::new(),
            child_origins: Vec::new(),
            restart_counts: HashMap::new(),
        }
    }

    /// Register a child factory. The factory is called to create a new
    /// instance of the child actor when spawning or restarting.
    pub fn register_child<F>(&mut self, factory: F)
        where
            F: Fn(&mut Context) -> ActorId + Send + 'static,
        requires
            forall|c: &mut Context| call_requires(factory, (c,)),
        ensures
            final(self)@.factories.len() == old(self)@.factories.len() + 1,
            final(self)@.factories.drop_last() == old(self)@.factories,
            forall|c: Context| final(self)@.factories.last().spawn_ok(c),
            forall|c: &mut Context, id: ActorId|
                final(self)@.factories.last().spawn_outcome(c, id) <==> call_ensures(
                    factory,
                    (c,),
                    id,
                ),
            final(self)@ == (SupState { factories: final(self)@.factories, ..old(self)@ }),
            old(self)@.wf() ==> final(self)@.wf(),
    {
        let b: Box<dyn ChildFactory> = Box::new(factory);
        assert(forall|c: Context| b.spawn_ok(c) == factory.spawn_ok(c));
        assert(forall|c: &mut Context, id: ActorId| b.spawn_outcome(c, id) == factory.spawn_outcome(c, id));
        let ghost before = self.child_factories@;
        self.child_factories.push(b);
        assert(self.child_factories@ == before.push(b));
        proof {
            vstd::seq::axiom_seq_push_len(before, b);
            vstd::seq::axiom_seq_push_index_same(before, b, before.len() as int);
            assert forall|i: int| 0 <= i < before.len() implies before.push(b)[i] == before[i] by {
                vstd::seq::axiom_seq_push_index_different(before, b, i);
            }
            assert(before.push(b).drop_last() =~= before);
        }
        assert(self@ =~= (SupState { factories: before.push(b), ..old(self)@ }));
    }

    /// Spawn all registered children. Call after registering factories.
    ///
    /// Each factory runs once, in registration order, on `ctx`: each call
    /// gets the context the one before left behind. The ids they return are
    /// appended to the children, each with a restart count of zero and the
    /// factory that made it as its origin.
    pub fn start_all(&mut self, ctx: &mut Context)
        requires
            old(self)@.wf(),
        ensures
            final(self)@.wf(),
            final(self)@.children.len() == old(self)@.children.len() + old(self)@.factories.len(),
            final(self)@.children.take(old(self)@.children.len() as int) == old(self)@.children,
            final(self)@.origins == old(self)@.origins + positions(old(self)@.factories.len()),
            final(self)@.restart_counts == with_counts(
                old(self)@.restart_counts,
                final(self)@.children.skip(old(self)@.children.len() as int),
                0,
            ),
            final(self)@ == (SupState {
                children: final(self)@.children,
                origins: final(self)@.origins,
                restart_counts: final(self)@.restart_counts,
                ..old(self)@
            }),
            old(self)@.factories.len() == 0 ==> *final(ctx) == *old(ctx),
            exists|ms: Seq<&mut Context>|
                #![trigger ms.len()]
                {
                    &&& ms.len() == old(self)@.factories.len()
                    &&& ms.len() == 0 ==> *final(ctx) == *old(ctx)
                    &&& ms.len() > 0 ==> *ms[0] == *old(ctx) && *final(ms.last()) == *final(ctx)
                    &&& forall|j: int|
                        0 <= j < ms.len() - 1 ==> *final(#[trigger] ms[j]) == *ms[j + 1]
                    &&& forall|j: int|
                        0 <= j < ms.len() ==> old(self)@.factories[j].spawn_outcome(
                            #[trigger] ms[j],
                            final(self)@.children[old(self)@.children.len() + j],
                        )
                },
            old(self)@.counts_bounded() ==> final(self)@.counts_bounded(),
    {
        let ghost start = self@;
        let n = self.child_factories.len();
        let mut order: Vec<usize> = Vec::new();
        let mut i: usize = 0;
        while i < n
            invariant
                i <= n,
                order@ == positions(i as nat),
            decreases n - i,
        {
            order.push(i);
            i += 1;
            assert(order@ =~= positions(i as nat));
        }
        let ghost ctx0 = *ctx;
        let fresh = run_factories(&self.child_factories, &order, n, ctx);
        let ghost ctx1 = *ctx;
        let base = self.child_ids.len();
        let mut j: usize = 0;
        while j < n
            invariant
                n == fresh@.len(),
                n == start.factories.len(),
                base == start.children.len(),
                start.wf(),
                j <= n,
                self@ == (SupState {
                    children: self@.children,
                    origins: self@.origins,
                    restart_counts: self@.restart_counts,
                    ..start
                }),
                self.child_ids@ == start.children + fresh@.take(j as int),
                self.child_origins@ == start.origins + positions(j as nat),
                self.restart_counts@ == with_counts(start.restart_counts, fresh@.take(j as int), 0),
                start.counts_bounded() ==> self@.counts_bounded(),
            decreases n - j,
        {
            let id = fresh[j];
            let ghost old_counts = self.restart_counts@;
            self.child_ids.push(id);
            self.child_origins.push(j);
            self.restart_counts.insert(id.0, 0);
            proof {
                assert(fresh@.take(j + 1).drop_last() =~= fresh@.take(j as int));
                assert(self.child_ids@ =~= start.children + fresh@.take(j + 1));
                assert(self.child_origins@ =~= start.origins + positions((j + 1) as nat));
                if start.counts_bounded() {
                    lemma_bounded_insert(old_counts, id.0, 0, start.max_restarts);
                }
            }
            j += 1;
        }
        proof {
            assert(fresh@.take(n as int) =~= fresh@);
            assert(self.child_ids@.skip(base as int) =~= fresh@);
            assert(self.child_ids@.take(base as int) =~= start.children);
            let ms = choose|ms: Seq<&mut Context>|
                #![trigger ms.len()]
                {
                    &&& ms.len() == fresh@.len()
                    &&& ms.len() == 0 ==> ctx1 == ctx0
                    &&& ms.len() > 0 ==> *ms[0] == ctx0 && *final(ms[ms.len() - 1]) == ctx1
                    &&& forall|k: int| 0 <= k < ms.len() - 1 ==> *final(#[trigger] ms[k]) == *ms[k + 1]
                    &&& forall|k: int|
                        0 <= k < ms.len() ==> start.factories[order@[k] as int].spawn_outcome(
                            #[trigger] ms[k],
                            fresh@[k],
                        )
                };
            assert(ms.len() == start.factories.len());
            assert(ctx1 == *final(ctx));
            assert(ms.len() > 0 ==> ms.last() == ms[ms.len() - 1]);
            assert forall|k: int| 0 <= k < ms.len() implies start.factories[k].spawn_outcome(
                #[trigger] ms[k],
                self.child_ids@[base + k],
            ) by {
                assert(order@[k] == k);
                assert(self.child_ids@[base + k] == fresh@[k]);
            }
        }
    }

    /// Handle a child failure by applying the supervision strategy.
    ///
    /// Returns the IDs of restarted children. A child already restarted
    /// `max_restarts` times is given up instead: it leaves the children, no
    /// factory runs, and nothing is returned. Otherwise one-for-one reruns
    /// the factory that made the failed child and puts the new id in its
    /// place; all-for-one reruns the factory of every child, in order, and
    /// the new ids replace all children (none of the old ones stays a
    /// child), each carrying the failed child's restart count plus one. The
    /// factories run on `ctx`, each call on the context the one before left
    /// behind.
    pub fn handle_failure(&mut self, failed_id: ActorId, ctx: &mut Context) -> (r: Vec<ActorId>)
        requires
            old(self)@.wf(),
        ensures
            final(self)@.wf(),
            r@.len() == old(self)@.restarts_for(failed_id),
            final(self)@ == old(self)@.after_failure(failed_id, r@),
            r@.len() == 0 ==> *final(ctx) == *old(ctx),
            exists|ms: Seq<&mut Context>|
                #![trigger ms.len()]
                {
                    &&& ms.len() == r@.len()
                    &&& ms.len() == 0 ==> *final(ctx) == *old(ctx)
                    &&& ms.len() > 0 ==> *ms[0] == *old(ctx) && *final(ms.last()) == *final(ctx)
                    &&& forall|j: int|
                        0 <= j < ms.len() - 1 ==> *final(#[trigger] ms[j]) == *ms[j + 1]
                    &&& forall|j: int|
                        0 <= j < ms.len() ==> old(self)@.factories[old(self)@.restart_factories(
                            failed_id,
                        )[j] as int].spawn_outcome(#[trigger] ms[j], r@[j])
                },
            old(self)@.counts_bounded() ==> final(self)@.counts_bounded(),
    {
        let count = match self.restart_counts.get(&failed_id.0) {
            Some(c) => *c,
            None => 0,
        };
        if count >= self.max_restarts {
            self.give_up(failed_id);
            let r: Vec<ActorId> = Vec::new();
            proof {
                let ms = Seq::<&mut Context>::empty();
                assert(r@ =~= Seq::<ActorId>::empty());
                assert(ms.len() == r@.len());
                assert(*final(ctx) == *old(ctx));
            }
            return r;
        }
        match self.strategy {
            Strategy::OneForOne => {
                let ghost pre = self@;
                let r = self.restart_one(failed_id, count, ctx);
                assert(pre == old(self)@);
                r
            },
            Strategy::AllForOne => {
                let ghost pre = self@;
                let r = self.restart_all(failed_id, count, ctx);
                assert(pre == old(self)@);
                r
            },
        }
    }

    /// Gives up the child `failed_id`: it leaves the children, with its
    /// origin, and its restart count is dropped.
    fn give_up(&mut self, failed_id: ActorId)
        requires
            old(self)@.wf(),
            old(self)@.gives_up(failed_id),
        ensures
            final(self)@.wf(),
            final(self)@ == old(self)@.after_failure(failed_id, Seq::empty()),
            old(self)@.counts_bounded() ==> final(self)@.counts_bounded(),
    {
        let ghost before = self@;
        self.remove_child(failed_id);
        self.restart_counts.remove(&failed_id.0);
        proof {
            if before.counts_bounded() {
                lemma_bounded_insert(before.restart_counts, failed_id.0, 0, before.max_restarts);
            }
            assert(self@.restart_counts =~= before.restart_counts.remove(failed_id.0));
            assert(self@ =~= before.after_failure(failed_id, Seq::empty()));
        }
    }

    /// Returns the IDs of all currently active children.
    pub fn children(&self) -> (r: &[ActorId])
        ensures
            r@ == self@.children,
    {
        self.child_ids.as_slice()
    }

    /// Drops every occurrence of `id` from the children, with their origins.
    fn remove_child(&mut self, id: ActorId)
        requires
            old(self)@.wf(),
        ensures
            final(self)@ == (SupState {
                children: old(self)@.children.filter(other_than(id)),
                origins: kept_origins(old(self)@.children, old(self)@.origins, id),
                ..old(self)@
            }),
            final(self)@.wf(),
    {
        let ghost old_ids = self.child_ids@;
        let ghost old_origins = self.child_origins@;
        let mut kept: Vec<ActorId> = Vec::new();
        let mut kept_o: Vec<usize> = Vec::new();
        let n = self.child_ids.len();
        let mut i: usize = 0;
        while i < n
            invariant
                n == self.child_ids@.len(),
                n == self.child_origins@.len(),
                self.child_ids@ == old_ids,
                self.child_origins@ == old_origins,
                i <= n,
                kept@ == old_ids.take(i as int).filter(other_than(id)),
                kept_o@ == kept_origins(old_ids.take(i as int), old_origins.take(i as int), id),
            decreases n - i,
        {
            let c = self.child_ids[i];
            let o = self.child_origins[i];
            proof {
                assert(old_ids.take(i + 1) == old_ids.take(i as int).push(c));
                assert(old_ids.take(i + 1).drop_last() =~= old_ids.take(i as int));
                assert(old_origins.take(i + 1).drop_last() =~= old_origins.take(i as int));
                old_ids.take(i as int).lemma_filter_push(c, other_than(id));
            }
            if c != id {
                kept.push(c);
                kept_o.push(o);
            }
            i += 1;
        }
        proof {
            assert(old_ids.take(n as int) == old_ids);
            assert(old_origins.take(n as int) == old_origins);
            lemma_kept_origins(old_ids, old_origins, id, self@.factories.len());
        }
        self.child_ids = kept;
        self.child_origins = kept_o;
    }

    /// The position of the first child with the given id.
    fn position(&self, id: ActorId) -> (r: Option<usize>)
        ensures
            r matches Some(i) ==> first_index(self@.children, id) == Some(i as int) && i
                < self@.children.len() && self@.children[i as int] == id,
            r is None ==> first_index(self@.children, id) is None,
    {
        let n = self.child_ids.len();
        let mut i: usize = 0;
        while i < n
            invariant
                n == self.child_ids@.len(),
                i <= n,
                forall|j: int| 0 <= j < i ==> self.child_ids@[j] != id,
            decreases n - i,
        {
            if self.child_ids[i] == id {
                proof {
                    lemma_first_index(self.child_ids@, id, i as int);
                }
                return Some(i);
            }
            i += 1;
        }
        proof {
            lemma_first_index_none(self.child_ids@, id);
        }
        None
    }

    fn restart_one(&mut self, failed_id: ActorId, count: usize, ctx: &mut Context) -> (r: Vec<
        ActorId,
    >)
        requires
            old(self)@.wf(),
            old(self)@.strategy == Strategy::OneForOne,
            !old(self)@.gives_up(failed_id),
            count == old(self)@.count_of(failed_id),
        ensures
            final(self)@.wf(),
            r@.len() == old(self)@.restarts_for(failed_id),
            final(self)@ == old(self)@.after_failure(failed_id, r@),
            r@.len() == 0 ==> *final(ctx) == *old(ctx),
            exists|ms: Seq<&mut Context>|
                #![trigger ms.len()]
                {
                    &&& ms.len() == r@.len()
                    &&& ms.len() == 0 ==> *final(ctx) == *old(ctx)
                    &&& ms.len() > 0 ==> *ms[0] == *old(ctx) && *final(ms.last()) == *final(ctx)
                    &&& forall|j: int|
                        0 <= j < ms.len() - 1 ==> *final(#[trigger] ms[j]) == *ms[j + 1]
                    &&& forall|j: int|
                        0 <= j < ms.len() ==> old(self)@.factories[old(self)@.restart_factories(
                            failed_id,
                        )[j] as int].spawn_outcome(#[trigger] ms[j], r@[j])
                },
            old(self)@.counts_bounded() ==> final(self)@.counts_bounded(),
    {
        let ghost before = self@;
        match self.position(failed_id) {
            Some(idx) => {
                let origin = self.child_origins[idx];
                let new_id = self.child_factories[origin].spawn_child(ctx);
                self.child_ids.set(idx, new_id);
                self.restart_counts.remove(&failed_id.0);
                self.restart_counts.insert(new_id.0, count + 1);
                let mut r = Vec::new();
                r.push(new_id);
                proof {
                    assert(r@[0] == new_id);
                    assert(before.restart_factories(failed_id) == seq![origin]);
                    assert(exists|c: &mut Context|
                        {
                            &&& *c == *old(ctx)
                            &&& *final(c) == *final(ctx)
                            &&& before.factories[origin as int].spawn_outcome(c, new_id)
                        });
                    let c = choose|c: &mut Context|
                        {
                            &&& *c == *old(ctx)
                            &&& *final(c) == *final(ctx)
                            &&& before.factories[origin as int].spawn_outcome(c, new_id)
                        };
                    assert(before.factories[before.restart_factories(failed_id)[0] as int].spawn_outcome(
                        c,
                        r@[0],
                    ));
                    let ms = seq![c];
                    assert(ms.len() == r@.len());
                    assert(ms[0] == c);
                    assert(ms.last() == c);
                    assert(self@ =~= before.after_failure(failed_id, r@));
                    if before.counts_bounded() {
                        lemma_bounded_insert(before.restart_counts, failed_id.0, 0, before.max_restarts);
                        lemma_bounded_insert(
                            before.restart_counts.remove(failed_id.0),
                            new_id.0,
                            (count + 1) as usize,
                            before.max_restarts,
                        );
                    }
                }
                r
            },
            None => {
                let r: Vec<ActorId> = Vec::new();
                proof {
                    let ms = Seq::<&mut Context>::empty();
                    assert(r@ =~= Seq::<ActorId>::empty());
                    assert(ms.len() == r@.len());
                    assert(*final(ctx) == *old(ctx));
                }
                r
            },
        }
    }

    /// Every restart count is dropped, and each of `ids` gets the count `v`.
    fn reset_counts(&mut self, ids: &Vec<ActorId>, v: usize)
        ensures
            final(self)@ == (SupState {
                restart_counts: with_counts(Map::empty(), ids@, v),
                ..old(self)@
            }),
    {
        let ghost start = self@;
        let n = ids.len();
        self.restart_counts.clear();
        let mut j: usize = 0;
        while j < n
            invariant
                n == ids@.len(),
                j <= n,
                self@ == (SupState { restart_counts: self@.restart_counts, ..start }),
                self.restart_counts@ == with_counts(Map::empty(), ids@.take(j as int), v),
            decreases n - j,
        {
            let id = ids[j];
            self.restart_counts.insert(id.0, v);
            proof {
                assert(ids@.take(j + 1).drop_last() =~= ids@.take(j as int));
            }
            j += 1;
        }
        assert(ids@.take(n as int) =~= ids@);
        assert(self@ =~= (SupState { restart_counts: with_counts(Map::empty(), ids@, v), ..start }));
    }

    fn restart_all(&mut self, failed_id: ActorId, count: usize, ctx: &mut Context) -> (r: Vec<
        ActorId,
    >)
        requires
            old(self)@.wf(),
            old(self)@.strategy == Strategy::AllForOne,
            !old(self)@.gives_up(failed_id),
            count == old(self)@.count_of(failed_id),
        ensures
            final(self)@.wf(),
            r@.len() == old(self)@.restarts_for(failed_id),
            final(self)@ == old(self)@.after_failure(failed_id, r@),
            r@.len() == 0 ==> *final(ctx) == *old(ctx),
            exists|ms: Seq<&mut Context>|
                #![trigger ms.len()]
                {
                    &&& ms.len() == r@.len()
                    &&& ms.len() == 0 ==> *final(ctx) == *old(ctx)
                    &&& ms.len() > 0 ==> *ms[0] == *old(ctx) && *final(ms.last()) == *final(ctx)
                    &&& forall|j: int|
                        0 <= j < ms.len() - 1 ==> *final(#[trigger] ms[j]) == *ms[j + 1]
                    &&& forall|j: int|
                        0 <= j < ms.len() ==> old(self)@.factories[old(self)@.restart_factories(
                            failed_id,
                        )[j] as int].spawn_outcome(#[trigger] ms[j], r@[j])
                },
            old(self)@.counts_bounded() ==> final(self)@.counts_bounded(),
    {
        let ghost start = self@;
        let ghost ctx0 = *ctx;
        let new_ids = run_factories(
            &self.child_factories,
            &self.child_origins,
            self.child_origins.len(),
            ctx,
        );
        let ghost ctx1 = *ctx;
        assert(start.restart_factories(failed_id) == start.origins);
        let v = count + 1;
        self.reset_counts(&new_ids, v);
        self.child_ids = new_ids.clone();
        proof {
            assert(self.child_ids@ =~= new_ids@);
            assert(self@ =~= start.after_failure(failed_id, new_ids@));
            if start.counts_bounded() {
                lemma_bounded_counts(Map::empty(), new_ids@, v, start.max_restarts);
            }
            let ms = choose|ms: Seq<&mut Context>|
                #![trigger ms.len()]
                {
                    &&& ms.len() == new_ids@.len()
                    &&& ms.len() == 0 ==> ctx1 == ctx0
                    &&& ms.len() > 0 ==> *ms[0] == ctx0 && *final(ms[ms.len() - 1]) == ctx1
                    &&& forall|j: int| 0 <= j < ms.len() - 1 ==> *final(#[trigger] ms[j]) == *ms[j + 1]
                    &&& forall|j: int|
                        0 <= j < ms.len() ==> start.factories[start.origins[j] as int].spawn_outcome(
                            #[trigger] ms[j],
                            new_ids@[j],
                        )
                };
            assert(ms.len() == new_ids@.len());
            assert(ctx1 == *final(ctx));
            assert(ms.len() > 0 ==> ms.last() == ms[ms.len() - 1]);
        }
        new_ids
    }
}


/// Runs the factories named by the first `k` entries of `order`, in that
/// order, each once, and returns the ids they gave. Each call gets the
/// context that the one before left behind: the first gets `ctx` as it was,
/// and the last leaves `ctx` as it ends up.
fn run_factories(fs: &Vec<Box<dyn ChildFactory>>, order: &Vec<usize>, k: usize, ctx: &mut Context) -> (r: Vec<ActorId>)
    requires
        k <= order@.len(),
        forall|j: int| 0 <= j < order@.len() ==> #[trigger] order@[j] < fs@.len(),
        forall|i: int, c: Context| 0 <= i < fs@.len() ==> #[trigger] fs@[i].spawn_ok(c),
    ensures
        r@.len() == k,
        exists|ms: Seq<&mut Context>|
            #![trigger ms.len()]
            {
                &&& ms.len() == r@.len()
                &&& ms.len() == 0 ==> *final(ctx) == *old(ctx)
                &&& ms.len() > 0 ==> *ms[0] == *old(ctx) && *final(ms[ms.len() - 1]) == *final(ctx)
                &&& forall|j: int| 0 <= j < ms.len() - 1 ==> *final(#[trigger] ms[j]) == *ms[j + 1]
                &&& forall|j: int|
                    0 <= j < ms.len() ==> fs@[order@[j] as int].spawn_outcome(#[trigger] ms[j], r@[j])
            },
    decreases k,
{
    if k == 0 {
        let r: Vec<ActorId> = Vec::new();
        proof {
            let ms = Seq::<&mut Context>::empty();
            assert(ms.len() == r@.len());
            assert(*final(ctx) == *old(ctx));
            assert(forall|j: int| 0 <= j < ms.len() - 1 ==> *final(#[trigger] ms[j]) == *ms[j + 1]);
            assert(forall|j: int|
                    0 <= j < ms.len() ==> fs@[order@[j] as int].spawn_outcome(#[trigger] ms[j], r@[j]));
        }
        return r;
    }
    let ghost ctx0 = *ctx;
    let r0 = run_factories(fs, order, k - 1, ctx);
    let ghost ctx1 = *ctx;
    let ghost r1 = r0@;
    let mut r = r0;
    let id = fs[order[k - 1]].spawn_child(ctx);
    r.push(id);
    proof {
        let ms1 = choose|ms: Seq<&mut Context>|
            {
                &&& ms.len() == r1.len()
                &&& ms.len() == 0 ==> ctx1 == ctx0
                &&& ms.len() > 0 ==> *ms[0] == ctx0 && *final(ms[ms.len() - 1]) == ctx1
                &&& forall|j: int| 0 <= j < ms.len() - 1 ==> *final(#[trigger] ms[j]) == *ms[j + 1]
                &&& forall|j: int|
                    0 <= j < ms.len() ==> fs@[order@[j] as int].spawn_outcome(#[trigger] ms[j], r1[j])
            };
        let c0 = choose|c: &mut Context|
            {
                &&& *c == ctx1
                &&& *final(c) == *final(ctx)
                &&& fs@[order@[k - 1] as int].spawn_outcome(c, id)
            };
        let ms = ms1.push(c0);
        assert(ms.len() == r@.len());
        assert(ms.last() == c0);
        assert forall|j: int| 0 <= j < ms.len() - 1 implies *final(#[trigger] ms[j]) == *ms[j + 1] by {
            if j < ms.len() - 2 {
                assert(ms[j] == ms1[j]);
                assert(ms[j + 1] == ms1[j + 1]);
            } else {
                assert(ms[j] == ms1.last());
                assert(ms[j + 1] == c0);
            }
        }
        assert forall|j: int|
            0 <= j < ms.len() implies fs@[order@[j] as int].spawn_outcome(#[trigger] ms[j], r@[j]) by {
            if j < ms.len() - 1 {
                assert(ms[j] == ms1[j]);
                assert(r@[j] == r1[j]);
            } else {
                assert(r@[j] == id);
            }
        }
        assert(ms1.len() > 0 ==> ms[0] == ms1[0]);
    }
    r
}


/// The supervisor after the child `id` fails `k` times in a row under
/// one-for-one, each failure hitting the child that replaced the previous
/// one; the factory hands out `fresh[j]` at the `j`-th restart. Returns the
/// state and the id of the child at the end.
pub open spec fn repeated_failures(s: SupState, id: ActorId, fresh: Seq<ActorId>, k: nat) -> (
    SupState,
    ActorId,
)
    decreases k,
{
    if k == 0 {
        (s, id)
    } else {
        let (prev, cur) = repeated_failures(s, id, fresh, (k - 1) as nat);
        if prev.restarts_for(cur) == 1 {
            (prev.after_failure(cur, seq![fresh[k - 1]]), fresh[k - 1])
        } else {
            (prev.after_failure(cur, Seq::empty()), cur)
        }
    }
}

/// The restart limit: under one-for-one, a child at position `i` that
/// starts with no restarts is restarted on each of its first
/// `max_restarts` failures, each time by the factory that made it (each
/// replacement taking its place and carrying the count on), and its next
/// failure gives it up, removing it from the children.
pub proof fn lemma_restart_limit(s: SupState, id: ActorId, fresh: Seq<ActorId>, i: int)
    requires
        s.strategy == Strategy::OneForOne,
        first_index(s.children, id) == Some(i),
        s.count_of(id) == 0,
        fresh.len() == s.max_restarts,
        forall|j: int| 0 <= j < fresh.len() ==> !s.children.contains(#[trigger] fresh[j]),
    ensures
        forall|k: nat|
            k <= s.max_restarts ==> {
                let (sk, cur) = #[trigger] repeated_failures(s, id, fresh, k);
                &&& sk.count_of(cur) == k
                &&& first_index(sk.children, cur) == Some(i)
                &&& sk.origins == s.origins
                &&& sk.factories == s.factories
                &&& (k < s.max_restarts ==> sk.restart_factories(cur) == seq![s.origins[i]])
            },
        ({
            let (last, cur) = repeated_failures(s, id, fresh, (s.max_restarts + 1) as nat);
            !last.children.contains(cur)
        }),
{
    assert forall|k: nat| k <= s.max_restarts implies {
        let (sk, cur) = #[trigger] repeated_failures(s, id, fresh, k);
        &&& sk.count_of(cur) == k
        &&& first_index(sk.children, cur) == Some(i)
        &&& sk.origins == s.origins
        &&& sk.factories == s.factories
        &&& (k < s.max_restarts ==> sk.restart_factories(cur) == seq![s.origins[i]])
    } by {
        lemma_restart_step(s, id, fresh, i, k);
    }
    let m = s.max_restarts as nat;
    lemma_restart_step(s, id, fresh, i, m);
    let (prev, cur) = repeated_failures(s, id, fresh, m);
    assert(prev.gives_up(cur));
    let last = prev.after_failure(cur, Seq::empty());
    if last.children.contains(cur) {
        let j = choose|j: int| 0 <= j < last.children.len() && last.children[j] == cur;
        lemma_filter_within(prev.children, other_than(cur), cur);
        assert(other_than(cur)(last.children[j]));
    }
}

/// One step of the restart limit, by induction on the number of failures.
proof fn lemma_restart_step(s: SupState, id: ActorId, fresh: Seq<ActorId>, i: int, k: nat)
    requires
        s.strategy == Strategy::OneForOne,
        first_index(s.children, id) == Some(i),
        s.count_of(id) == 0,
        fresh.len() == s.max_restarts,
        forall|j: int| 0 <= j < fresh.len() ==> !s.children.contains(#[trigger] fresh[j]),
        k <= s.max_restarts,
    ensures
        ({
            let (sk, cur) = repeated_failures(s, id, fresh, k);
            &&& sk.count_of(cur) == k
            &&& first_index(sk.children, cur) == Some(i)
            &&& sk.origins == s.origins
            &&& sk.factories == s.factories
            &&& (k < s.max_restarts ==> sk.restart_factories(cur) == seq![s.origins[i]])
            &&& sk.strategy == s.strategy
            &&& sk.max_restarts == s.max_restarts
            &&& sk.children.len() == s.children.len()
            &&& forall|j: int| 0 <= j < i ==> #[trigger] sk.children[j] == s.children[j]
        }),
    decreases k,
{
    lemma_first_index_facts(s.children, id, i);
    if k > 0 {
        lemma_restart_step(s, id, fresh, i, (k - 1) as nat);
        let (prev, cur) = repeated_failures(s, id, fresh, (k - 1) as nat);
        lemma_first_index_facts(prev.children, cur, i);
        let next = fresh[k - 1];
        let sk = prev.after_failure(cur, seq![next]);
        assert(sk.children == prev.children.update(i, next));
        assert forall|j: int| 0 <= j < i implies sk.children[j] != next by {
            assert(sk.children[j] == s.children[j]);
            if s.children[j] == next {
                assert(s.children.contains(fresh[k - 1]));
            }
        }
        lemma_first_index(sk.children, next, i);
        assert(sk.restart_counts.contains_key(next.0));
    }
}

/// Giving up: under either strategy, a failure of a child whose restarts
/// are used up runs no factory; the child leaves the children (the others
/// keep their order and their origins) and its count is dropped.
pub proof fn lemma_give_up(s: SupState, id: ActorId)
    requires
        s.wf(),
        s.gives_up(id),
    ensures
        ({
            let t = s.after_failure(id, Seq::empty());
            &&& s.restarts_for(id) == 0
            &&& t.children == s.children.filter(other_than(id))
            &&& !t.children.contains(id)
            &&& !t.restart_counts.contains_key(id.0)
            &&& t.factories == s.factories
            &&& t.wf()
        }),
{
    let t = s.after_failure(id, Seq::empty());
    lemma_kept_origins(s.children, s.origins, id, s.factories.len());
    if t.children.contains(id) {
        let j = choose|j: int| 0 <= j < t.children.len() && t.children[j] == id;
        assert(other_than(id)(t.children[j]));
    }
}

/// Giving up keeps the rest: when a child is given up, the children that
/// remain are exactly the others, in their old order, each with the origin
/// (the factory) it had before: the `k`-th remaining child and its origin
/// are the old ones at position `f[k]`, the positions increase, and every
/// other child is kept. No other child's restart count changes.
pub proof fn lemma_give_up_keeps_the_rest(s: SupState, id: ActorId) -> (f: Seq<int>)
    requires
        s.wf(),
        s.gives_up(id),
    ensures
        ({
            let t = s.after_failure(id, Seq::empty());
            &&& f.len() == t.children.len()
            &&& t.origins.len() == t.children.len()
            &&& forall|k: int|
                0 <= k < f.len() ==> {
                    &&& 0 <= #[trigger] f[k] < s.children.len()
                    &&& t.children[k] == s.children[f[k]]
                    &&& t.origins[k] == s.origins[f[k]]
                }
            &&& forall|k1: int, k2: int| 0 <= k1 < k2 < f.len() ==> f[k1] < f[k2]
            &&& forall|i: int|
                0 <= i < s.children.len() && #[trigger] s.children[i] != id ==> exists|k: int|
                    0 <= k < f.len() && f[k] == i
            &&& forall|x: ActorId| x != id ==> #[trigger] t.count_of(x) == s.count_of(x)
            &&& t.count_of(id) == 0
        }),
{
    let t = s.after_failure(id, Seq::empty());
    let f = lemma_kept_positions(s.children, s.origins, id);
    assert forall|x: ActorId| x != id implies #[trigger] t.count_of(x) == s.count_of(x) by {
        assert(x.0 != id.0);
    }
    f
}

/// The positions of the children that remain when `id` is dropped, with
/// their origins carried along.
proof fn lemma_kept_positions(children: Seq<ActorId>, origins: Seq<usize>, id: ActorId) -> (f: Seq<
    int,
>)
    requires
        children.len() == origins.len(),
    ensures
        f.len() == children.filter(other_than(id)).len(),
        f.len() == kept_origins(children, origins, id).len(),
        forall|k: int|
            0 <= k < f.len() ==> {
                &&& 0 <= #[trigger] f[k] < children.len()
                &&& children.filter(other_than(id))[k] == children[f[k]]
                &&& kept_origins(children, origins, id)[k] == origins[f[k]]
            },
        forall|k1: int, k2: int| 0 <= k1 < k2 < f.len() ==> f[k1] < f[k2],
        forall|i: int|
            0 <= i < children.len() && #[trigger] children[i] != id ==> exists|k: int|
                0 <= k < f.len() && f[k] == i,
    decreases children.len(),
{
    reveal(Seq::filter);
    if children.len() == 0 {
        Seq::empty()
    } else {
        let ci = children.drop_last();
        let oi = origins.drop_last();
        let g = lemma_kept_positions(ci, oi, id);
        assert forall|k: int| 0 <= k < g.len() implies children[#[trigger] g[k]] == ci[g[k]] && origins[g[k]]
            == oi[g[k]] by {}
        if children.last() != id {
            let f = g.push(children.len() - 1);
            assert(children.filter(other_than(id)) == ci.filter(other_than(id)).push(children.last()));
            assert(kept_origins(children, origins, id) == kept_origins(ci, oi, id).push(origins.last()));
            assert forall|k: int| 0 <= k < f.len() implies {
                &&& 0 <= #[trigger] f[k] < children.len()
                &&& children.filter(other_than(id))[k] == children[f[k]]
                &&& kept_origins(children, origins, id)[k] == origins[f[k]]
            } by {
                if k < g.len() {
                    assert(f[k] == g[k]);
                }
            }
            assert forall|i: int| 0 <= i < children.len() && #[trigger] children[i] != id implies exists|
                k: int,
            | 0 <= k < f.len() && f[k] == i by {
                if i < children.len() - 1 {
                    assert(ci[i] == children[i]);
                    let k = choose|k: int| 0 <= k < g.len() && g[k] == i;
                    assert(f[k] == i);
                } else {
                    assert(f[g.len() as int] == i);
                }
            }
            f
        } else {
            assert(children.filter(other_than(id)) == ci.filter(other_than(id)));
            assert(kept_origins(children, origins, id) == kept_origins(ci, oi, id));
            assert forall|i: int| 0 <= i < children.len() && #[trigger] children[i] != id implies exists|
                k: int,
            | 0 <= k < g.len() && g[k] == i by {
                assert(i < children.len() - 1);
                assert(ci[i] == children[i]);
            }
            g
        }
    }
}

/// One-for-one: a failure that restarts a child changes only the counts of
/// the failed child and of its replacement: the replacement carries the
/// failed child's count plus one, the failed child's count is dropped (if
/// it is not its own replacement), and every other child's count stays.
/// The replacement takes the place of the failed child's first
/// occurrence; every other child keeps its place and its origin.
pub proof fn lemma_one_for_one_counts(s: SupState, id: ActorId, fresh: Seq<ActorId>)
    requires
        s.strategy == Strategy::OneForOne,
        s.restarts_for(id) == 1,
        fresh.len() == 1,
    ensures
        ({
            let t = s.after_failure(id, fresh);
            &&& t.count_of(fresh[0]) == s.count_of(id) + 1
            &&& fresh[0] != id ==> t.count_of(id) == 0
            &&& forall|x: ActorId| x != id && x != fresh[0] ==> #[trigger] t.count_of(x) == s.count_of(x)
            &&& t.origins == s.origins
            &&& t.factories == s.factories
            &&& t.children.len() == s.children.len()
            &&& exists|i: int|
                0 <= i < s.children.len() && s.children[i] == id && t.children[i] == fresh[0]
                    && (forall|j: int| 0 <= j < i ==> s.children[j] != id) && (forall|j: int|
                    0 <= j < s.children.len() && j != i ==> #[trigger] t.children[j]
                        == s.children[j])
        }),
{
    let t = s.after_failure(id, fresh);
    assert(!s.gives_up(id));
    let i = first_index(s.children, id)->0;
    assert(first_index(s.children, id) == Some(i));
    lemma_first_index_facts(s.children, id, i);
    assert(t.children == s.children.update(i, fresh[0]));
    assert(t.restart_counts == s.restart_counts.remove(id.0).insert(fresh[0].0, (s.count_of(id) + 1) as usize));
    assert(t.count_of(fresh[0]) == s.count_of(id) + 1);
    assert forall|x: ActorId| x != id && x != fresh[0] implies #[trigger] t.count_of(x) == s.count_of(x) by {
        assert(x.0 != id.0);
        assert(x.0 != fresh[0].0);
    }
    if fresh[0] != id {
        assert(fresh[0].0 != id.0);
    }
}

/// All-for-one: a failure within the limit reruns the factory of every
/// child, in the children's order; the ids they return become the
/// children, each in the place of the child it replaces (so no earlier
/// child remains), and each carries the failed child's restart count plus
/// one, which is then the only count there is.
pub proof fn lemma_all_for_one_restarts(s: SupState, id: ActorId, fresh: Seq<ActorId>)
    requires
        s.wf(),
        s.strategy == Strategy::AllForOne,
        !s.gives_up(id),
        fresh.len() == s.restarts_for(id),
    ensures
        ({
            let t = s.after_failure(id, fresh);
            &&& s.restart_factories(id) == s.origins
            &&& t.children == fresh
            &&& t.origins == s.origins
            &&& t.wf()
            &&& forall|j: int| 0 <= j < fresh.len() ==> #[trigger] t.count_of(fresh[j]) == s.count_of(id) + 1
            &&& forall|k: u64| #[trigger] t.restart_counts.contains_key(k) ==> t.restart_counts[k] == s.count_of(id) + 1
        }),
{
    lemma_counts(fresh, (s.count_of(id) + 1) as usize);
}

/// All-for-one: once a failure has restarted the group, every child has
/// the same count, so the limit stops the group after `max_restarts`
/// group restarts: a failure of any child with that count gives it up.
pub proof fn lemma_all_for_one_limit(s: SupState, id: ActorId, fresh: Seq<ActorId>, other: ActorId)
    requires
        s.wf(),
        s.strategy == Strategy::AllForOne,
        !s.gives_up(id),
        s.count_of(id) + 1 == s.max_restarts,
        fresh.len() == s.restarts_for(id),
        s.after_failure(id, fresh).children.contains(other),
    ensures
        s.after_failure(id, fresh).gives_up(other),
        s.after_failure(id, fresh).restarts_for(other) == 0,
{
    lemma_counts(fresh, (s.count_of(id) + 1) as usize);
}

/// Giving a key a value within the bound, or dropping a key, keeps every
/// value within it.
proof fn lemma_bounded_insert(m: Map<u64, usize>, k: u64, v: usize, max: usize)
    requires
        bounded_by(m, max),
        v <= max,
    ensures
        bounded_by(m.insert(k, v), max),
        bounded_by(m.remove(k), max),
{
    assert forall|j: u64| #[trigger] m.insert(k, v).contains_key(j) implies m.insert(k, v)[j] <= max by {
        if j != k {
            assert(m.contains_key(j));
        }
    }
    assert forall|j: u64| #[trigger] m.remove(k).contains_key(j) implies m.remove(k)[j] <= max by {
        assert(m.contains_key(j));
    }
}

/// Counts within the bound keep every value within it.
proof fn lemma_bounded_counts(m: Map<u64, usize>, ids: Seq<ActorId>, v: usize, max: usize)
    requires
        bounded_by(m, max),
        v <= max,
    ensures
        bounded_by(with_counts(m, ids, v), max),
    decreases ids.len(),
{
    if ids.len() > 0 {
        lemma_bounded_counts(m, ids.drop_last(), v, max);
        lemma_bounded_insert(with_counts(m, ids.drop_last(), v), ids.last().0, v, max);
    }
}

/// The origins kept when `id` is dropped are as many as the children kept,
/// and each still names one of the factories.
proof fn lemma_kept_origins(children: Seq<ActorId>, origins: Seq<usize>, id: ActorId, bound: nat)
    requires
        children.len() == origins.len(),
        forall|j: int| 0 <= j < origins.len() ==> #[trigger] origins[j] < bound,
    ensures
        kept_origins(children, origins, id).len() == children.filter(other_than(id)).len(),
        forall|k: int|
            0 <= k < kept_origins(children, origins, id).len() ==> #[trigger] kept_origins(
                children,
                origins,
                id,
            )[k] < bound,
    decreases children.len(),
{
    reveal(Seq::filter);
    if children.len() > 0 {
        let init_o = origins.drop_last();
        assert forall|j: int| 0 <= j < init_o.len() implies #[trigger] init_o[j] < bound by {
            assert(init_o[j] == origins[j]);
        }
        lemma_kept_origins(children.drop_last(), init_o, id, bound);
        let rest = kept_origins(children.drop_last(), init_o, id);
        if children.last() != id {
            assert forall|k: int| 0 <= k < rest.push(origins.last()).len() implies #[trigger] rest.push(
                origins.last(),
            )[k] < bound by {
                if k < rest.len() {
                    assert(rest.push(origins.last())[k] == rest[k]);
                }
            }
        }
    }
}

/// In `with_counts(empty, ids, v)` exactly the ids have a count, and it is `v`.
proof fn lemma_counts(ids: Seq<ActorId>, v: usize)
    ensures
        forall|j: int|
            0 <= j < ids.len() ==> #[trigger] with_counts(Map::empty(), ids, v).contains_key(
                ids[j].0,
            ),
        forall|k: u64| #[trigger]
            with_counts(Map::empty(), ids, v).contains_key(k) ==> with_counts(
                Map::empty(),
                ids,
                v,
            )[k] == v,
    decreases ids.len(),
{
    if ids.len() > 0 {
        let init = ids.drop_last();
        lemma_counts(init, v);
        let m = with_counts(Map::<u64, usize>::empty(), init, v);
        assert(with_counts(Map::<u64, usize>::empty(), ids, v) == m.insert(ids.last().0, v));
        assert forall|k: u64| #[trigger] m.insert(ids.last().0, v).contains_key(k) implies m.insert(
            ids.last().0,
            v,
        )[k] == v by {
            if k != ids.last().0 {
                assert(m.contains_key(k));
            }
        }
        assert forall|j: int| 0 <= j < ids.len() implies #[trigger] with_counts(
            Map::empty(),
            ids,
            v,
        ).contains_key(ids[j].0) by {
            if j < ids.len() - 1 {
                assert(ids[j] == init[j]);
                assert(m.contains_key(init[j].0));
            }
        }
    }
}

/// `first_index` finds the first occurrence.
pub proof fn lemma_first_index(s: Seq<ActorId>, x: ActorId, i: int)
    requires
        0 <= i < s.len(),
        s[i] == x,
        forall|j: int| 0 <= j < i ==> s[j] != x,
    ensures
        first_index(s, x) == Some(i),
    decreases s.len(),
{
    if i > 0 {
        lemma_first_index(s.drop_first(), x, i - 1);
    }
}

/// `first_index` finds nothing where `x` does not occur.
pub proof fn lemma_first_index_none(s: Seq<ActorId>, x: ActorId)
    requires
        forall|j: int| 0 <= j < s.len() ==> s[j] != x,
    ensures
        first_index(s, x) is None,
    decreases s.len(),
{
    if s.len() > 0 {
        lemma_first_index_none(s.drop_first(), x);
    }
}

/// What `first_index` returning `i` tells about the sequence.
pub proof fn lemma_first_index_facts(s: Seq<ActorId>, x: ActorId, i: int)
    requires
        first_index(s, x) == Some(i),
    ensures
        0 <= i < s.len(),
        s[i] == x,
        forall|j: int| 0 <= j < i ==> s[j] != x,
    decreases s.len(),
{
    if s.len() > 0 && s[0] != x {
        lemma_first_index_facts(s.drop_first(), x, i - 1);
        assert forall|j: int| 0 <= j < i implies s[j] != x by {
            if j > 0 {
                assert(s[j] == s.drop_first()[j - 1]);
            }
        }
    }
}

} // verus!
