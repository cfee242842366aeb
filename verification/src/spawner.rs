use vstd::prelude::*;

use std::collections::HashMap;

use crate::actor::ActorId;

verus! {

broadcast use vstd::std_specs::hash::group_hash_axioms;

/// Spawn bookkeeping shared by a runtime's workers: the id counter, the
/// round-robin worker counter, and each worker's table of live actors.
///
/// What a table stores per actor (`C`) is up to the runtime.
pub struct SpawnShared<C> {
    next_id: u64,
    next_worker: usize,
    num_workers: usize,
    actor_maps: Vec<HashMap<u64, C>>,
    issued: Ghost<Set<u64>>,
}

impl<C> SpawnShared<C> {
    /// The id the next allocation hands out.
    pub closed spec fn spec_next_id(&self) -> u64 {
        self.next_id
    }

    /// The counter the next worker pick is taken from.
    pub closed spec fn spec_next_worker(&self) -> usize {
        self.next_worker
    }

    pub closed spec fn spec_num_workers(&self) -> nat {
        self.num_workers as nat
    }

    /// Every id allocated since the counter last wrapped around (all of
    /// them, until it does).
    pub closed spec fn issued(&self) -> Set<u64> {
        self.issued@
    }

    /// The live actors of each worker, by raw id.
    pub closed spec fn tables(&self) -> Seq<Map<u64, C>> {
        self.actor_maps@.map_values(|m: HashMap<u64, C>| m@)
    }

    /// One table per worker, at least one worker, and every id allocated
    /// since the counter last wrapped around lies below it.
    pub open spec fn wf(&self) -> bool {
        &&& self.spec_num_workers() > 0
        &&& self.tables().len() == self.spec_num_workers()
        &&& forall|i: u64| #[trigger] self.issued().contains(i) ==> i < self.spec_next_id()
    }

    /// Bookkeeping for `num_workers` workers with no actors; ids start at 1.
    pub fn new(num_workers: usize) -> (s: Self)
        requires
            num_workers > 0,
        ensures
            s.wf(),
            s.spec_next_id() == 1,
            s.spec_next_worker() == 0,
            s.spec_num_workers() == num_workers,
            s.issued() == Set::<u64>::empty(),
            forall|w: int| 0 <= w < num_workers ==> #[trigger] s.tables()[w] == Map::<u64, C>::empty(),
    {
        let mut maps: Vec<HashMap<u64, C>> = Vec::new();
        let mut i: usize = 0;
        while i < num_workers
            invariant
                i <= num_workers,
                maps@.len() == i,
                forall|w: int| 0 <= w < i ==> #[trigger] maps@[w]@ == Map::<u64, C>::empty(),
            decreases num_workers - i,
        {
            maps.push(HashMap::new());
            i += 1;
        }
        SpawnShared {
            next_id: 1,
            next_worker: 0,
            num_workers,
            actor_maps: maps,
            issued: Ghost(Set::empty()),
        }
    }

    /// The id bookkeeping of `old` carries over to `self` when neither the
    /// counter nor the issued ids changed.
    proof fn lemma_keeps_issued(&self, old: &Self)
        requires
            old.wf(),
            self.issued() == old.issued(),
            self.spec_next_id() == old.spec_next_id(),
        ensures
            forall|i: u64| #[trigger] self.issued().contains(i) ==> i < self.spec_next_id(),
    {
        assert forall|i: u64| #[trigger] self.issued().contains(i) implies i < self.spec_next_id() by {
            assert(old.issued().contains(i));
        }
    }

    /// The number of workers.
    pub fn num_workers(&self) -> (r: usize)
        ensures
            r == self.spec_num_workers(),
    {
        self.num_workers
    }

    /// Hands out the next actor id; the counter moves on by one (and wraps
    /// around after `u64::MAX`, as an atomic counter would).
    pub fn allocate_id(&mut self) -> (r: ActorId)
        requires
            old(self).wf(),
        ensures
            r.0 == old(self).spec_next_id(),
            !old(self).issued().contains(r.0),
            final(self).spec_next_id() == old(self).spec_next_id().wrapping_add(1),
            final(self).spec_next_worker() == old(self).spec_next_worker(),
            final(self).spec_num_workers() == old(self).spec_num_workers(),
            final(self).tables() == old(self).tables(),
            final(self).wf(),
            old(self).spec_next_id() < u64::MAX ==> final(self).issued() == old(self).issued().insert(
                r.0,
            ),
            old(self).spec_next_id() == u64::MAX ==> final(self).issued() == Set::<u64>::empty(),
    {
        let id = self.next_id;
        self.next_id = self.next_id.wrapping_add(1);
        proof {
            if id < u64::MAX {
                self.issued@ = self.issued@.insert(id);
                assert forall|i: u64| #[trigger] self.issued().contains(i) implies i
                    < self.spec_next_id() by {
                    if i != id {
                        assert(old(self).issued().contains(i));
                    }
                }
            } else {
                self.issued@ = Set::empty();
            }
        }
        ActorId(id)
    }

    /// Picks the worker for the next spawn, round-robin.
    pub fn pick_worker(&mut self) -> (r: usize)
        requires
            old(self).wf(),
        ensures
            final(self).wf(),
            r == old(self).spec_next_worker() % (old(self).spec_num_workers() as usize),
            r < old(self).spec_num_workers(),
            final(self).spec_next_worker() == old(self).spec_next_worker().wrapping_add(1),
            final(self).spec_next_id() == old(self).spec_next_id(),
            final(self).spec_num_workers() == old(self).spec_num_workers(),
            final(self).issued() == old(self).issued(),
            final(self).tables() == old(self).tables(),
    {
        let w = self.next_worker % self.num_workers;
        self.next_worker = self.next_worker.wrapping_add(1);
        proof {
            self.lemma_keeps_issued(old(self));
        }
        w
    }

    /// Puts an actor into a worker's table (replacing any entry with the
    /// same id there).
    pub fn spawn_actor_direct(&mut self, id: ActorId, worker_idx: usize, cell: C)
        requires
            old(self).wf(),
            worker_idx < old(self).spec_num_workers(),
        ensures
            final(self).wf(),
            final(self).tables() == old(self).tables().update(
                worker_idx as int,
                old(self).tables()[worker_idx as int].insert(id.0, cell),
            ),
            final(self).spec_next_id() == old(self).spec_next_id(),
            final(self).spec_next_worker() == old(self).spec_next_worker(),
            final(self).spec_num_workers() == old(self).spec_num_workers(),
            final(self).issued() == old(self).issued(),
    {
        let ghost before = self.tables();
        let mut m = self.actor_maps.remove(worker_idx);
        m.insert(id.0, cell);
        self.actor_maps.insert(worker_idx, m);
        assert(self.tables() =~= before.update(
            worker_idx as int,
            before[worker_idx as int].insert(id.0, cell),
        ));
        proof {
            self.lemma_keeps_issued(old(self));
        }

    }

    /// Takes an actor out of a worker's table.
    pub fn remove_actor(&mut self, actor_id: ActorId, worker_idx: usize) -> (r: Option<C>)
        requires
            old(self).wf(),
            worker_idx < old(self).spec_num_workers(),
        ensures
            final(self).wf(),
            final(self).tables() == old(self).tables().update(
                worker_idx as int,
                old(self).tables()[worker_idx as int].remove(actor_id.0),
            ),
            r == (if old(self).tables()[worker_idx as int].contains_key(actor_id.0) {
                Some(old(self).tables()[worker_idx as int][actor_id.0])
            } else {
                None
            }),
            final(self).spec_next_id() == old(self).spec_next_id(),
            final(self).spec_next_worker() == old(self).spec_next_worker(),
            final(self).spec_num_workers() == old(self).spec_num_workers(),
            final(self).issued() == old(self).issued(),
    {
        let ghost before = self.tables();
        let mut m = self.actor_maps.remove(worker_idx);
        let r = m.remove(&actor_id.0);
        self.actor_maps.insert(worker_idx, m);
        assert(self.tables() =~= before.update(
            worker_idx as int,
            before[worker_idx as int].remove(actor_id.0),
        ));
        proof {
            self.lemma_keeps_issued(old(self));
        }

        r
    }

    /// After an actor taken out of its table has handled a message: one that
    /// keeps running goes back into the table; one that stopped (or failed)
    /// stays out and is handed back so that its `stopped` hook can run.
    pub fn settle(&mut self, id: ActorId, worker_idx: usize, cell: C, running: bool) -> (r: Option<C>)
        requires
            old(self).wf(),
            worker_idx < old(self).spec_num_workers(),
        ensures
            final(self).wf(),
            running ==> r is None && final(self).tables() == old(self).tables().update(
                worker_idx as int,
                old(self).tables()[worker_idx as int].insert(id.0, cell),
            ),
            !running ==> r == Some(cell) && final(self).tables() == old(self).tables(),
            final(self).spec_next_id() == old(self).spec_next_id(),
            final(self).spec_next_worker() == old(self).spec_next_worker(),
            final(self).spec_num_workers() == old(self).spec_num_workers(),
            final(self).issued() == old(self).issued(),
    {
        if running {
            self.spawn_actor_direct(id, worker_idx, cell);
            None
        } else {
            Some(cell)
        }
    }

    /// The number of live actors in a worker's table.
    pub fn actor_count(&self, worker_idx: usize) -> (r: usize)
        requires
            self.wf(),
            worker_idx < self.spec_num_workers(),
        ensures
            r == self.tables()[worker_idx as int].len(),
    {
        self.actor_maps[worker_idx].len()
    }

    /// The ids of the live actors in a worker's table, each once.
    pub fn actor_ids(&self, worker_idx: usize) -> (r: Vec<ActorId>)
        requires
            self.wf(),
            worker_idx < self.spec_num_workers(),
        ensures
            r@.len() == self.tables()[worker_idx as int].len(),
            r@.no_duplicates(),
            forall|i: int| 0 <= i < r@.len() ==> self.tables()[worker_idx as int].contains_key(#[trigger] r@[i].0),
            forall|k: u64| #[trigger] self.tables()[worker_idx as int].contains_key(k) ==> r@.contains(ActorId(k)),
    {
        let m = &self.actor_maps[worker_idx];
        assert(m@ == self.tables()[worker_idx as int]);
        let ghost keys = vstd::std_specs::iter::IteratorSpec::remaining(&vstd::std_specs::hash::spec_keys_iter(m));
        let mut ids: Vec<ActorId> = Vec::new();
        for k in it: m.keys()
            invariant
                it.seq() == keys,
                ids@.len() == it.index(),
                forall|i: int| 0 <= i < ids@.len() ==> #[trigger] ids@[i].0 == *keys[i],
        {
            ids.push(ActorId(*k));
        }
        proof {
            assert(ids@.len() == keys.len());
            assert(keys.unref().to_set() == m@.dom());
            assert(keys.no_duplicates());
            assert forall|a: int, b: int| 0 <= a < b < ids@.len() implies ids@[a] != ids@[b] by {
                assert(keys[a] != keys[b]);
                assert(ids@[a].0 == *keys[a]);
                assert(ids@[b].0 == *keys[b]);
            }
            assert forall|i: int| 0 <= i < ids@.len() implies m@.contains_key(#[trigger] ids@[i].0) by {
                assert(keys.unref()[i] == *keys[i]);
                assert(keys.unref().contains(*keys[i]));
            }
            assert forall|k: u64| #[trigger] m@.contains_key(k) implies ids@.contains(ActorId(k)) by {
                assert(keys.unref().to_set().contains(k));
                let i = choose|i: int| 0 <= i < keys.unref().len() && keys.unref()[i] == k;
                assert(keys.unref()[i] == *keys[i]);
                assert(ids@[i].0 == k);
                assert(ids@[i] == ActorId(k));
            }
        }
        ids
    }
}

/// What a worker's table gives back of a spawn: an actor put into worker
/// `w`'s table is there, and taking it out again hands back what was put in
/// and leaves the tables as taking it out of the tables before the spawn would.
pub proof fn lemma_spawn_then_remove<C>(tables: Seq<Map<u64, C>>, w: int, id: ActorId, cell: C)
    requires
        0 <= w < tables.len(),
    ensures
        ({
            let t1 = tables.update(w, tables[w].insert(id.0, cell));
            &&& t1[w].contains_key(id.0)
            &&& t1[w][id.0] == cell
            &&& t1.update(w, t1[w].remove(id.0)) == tables.update(w, tables[w].remove(id.0))
        }),
{
    let t1 = tables.update(w, tables[w].insert(id.0, cell));
    assert(t1[w].remove(id.0) =~= tables[w].remove(id.0));
    assert(t1.update(w, t1[w].remove(id.0)) =~= tables.update(w, tables[w].remove(id.0)));
}

/// Round-robin placement: whatever the counter `c` stands at, the next `n`
/// picks among `n` workers (taking `(c + j) % n` for `j < n`) land on every
/// worker.
pub proof fn lemma_picks_cover_workers(c: int, n: int, w: int)
    requires
        0 <= c,
        0 < n,
        0 <= w < n,
    ensures
        exists|j: int| 0 <= j < n && #[trigger] ((c + j) % n) == w,
{
    let r = c % n;
    let q = c / n;
    vstd::arithmetic::div_mod::lemma_fundamental_div_mod(c, n);
    vstd::arithmetic::div_mod::lemma_small_mod(w as nat, n as nat);
    let j: int = if w >= r {
        w - r
    } else {
        w + n - r
    };
    if w >= r {
        assert(c + j == n * q + w);
        vstd::arithmetic::div_mod::lemma_mod_multiples_vanish(q, w, n);
    } else {
        assert(c + j == n * (q + 1) + w) by (nonlinear_arith)
            requires
                c == n * q + r,
                j == w + n - r,
        ;
        vstd::arithmetic::div_mod::lemma_mod_multiples_vanish(q + 1, w, n);
    }
    assert((c + j) % n == w);
}

} // verus!
