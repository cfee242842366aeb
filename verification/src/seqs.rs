use vstd::prelude::*;

use crate::actor::ActorId;

verus! {

/// Holds of every actor but `id`.
pub open spec fn other_than(id: ActorId) -> spec_fn(ActorId) -> bool {
    |x: ActorId| x != id
}

/// Filtering a sequence without duplicates leaves none.
pub proof fn lemma_filter_unique<A>(xs: Seq<A>, p: spec_fn(A) -> bool)
    requires
        xs.no_duplicates(),
    ensures
        xs.filter(p).no_duplicates(),
    decreases xs.len(),
{
    reveal(Seq::filter);
    if xs.len() > 0 {
        let init = xs.drop_last();
        assert(init.no_duplicates());
        lemma_filter_unique(init, p);
        if p(xs.last()) {
            if init.filter(p).contains(xs.last()) {
                lemma_filter_within(init, p, xs.last());
                let m = choose|m: int| 0 <= m < init.len() && init[m] == xs.last();
                assert(xs[m] == xs[xs.len() - 1]);
            }
            assert(init.filter(p).push(xs.last()).no_duplicates());
        }
    }
}

/// Whatever a filter keeps was in the sequence.
pub proof fn lemma_filter_within<A>(xs: Seq<A>, p: spec_fn(A) -> bool, x: A)
    requires
        xs.filter(p).contains(x),
    ensures
        xs.contains(x),
    decreases xs.len(),
{
    reveal(Seq::filter);
    if xs.len() > 0 {
        let init = xs.drop_last();
        if x != xs.last() {
            if p(xs.last()) {
                let k = choose|k: int| 0 <= k < xs.filter(p).len() && xs.filter(p)[k] == x;
                assert(init.filter(p)[k] == x);
            }
            lemma_filter_within(init, p, x);
            let m = choose|m: int| 0 <= m < init.len() && init[m] == x;
            assert(xs[m] == x);
        } else {
            assert(xs[xs.len() - 1] == x);
        }
    }
}

/// Where a filter's items come from: the `k`-th kept item is the item at
/// position `f[k]`, the positions increase, and every item that passes is
/// kept at one of them.
pub proof fn lemma_filter_positions<A>(xs: Seq<A>, p: spec_fn(A) -> bool) -> (f: Seq<int>)
    ensures
        f.len() == xs.filter(p).len(),
        forall|k: int|
            0 <= k < f.len() ==> 0 <= #[trigger] f[k] < xs.len() && xs[f[k]] == xs.filter(p)[k],
        forall|k1: int, k2: int| 0 <= k1 < k2 < f.len() ==> f[k1] < f[k2],
        forall|i: int| 0 <= i < xs.len() && p(#[trigger] xs[i]) ==> exists|k: int| 0 <= k < f.len() && f[k] == i,
    decreases xs.len(),
{
    reveal(Seq::filter);
    if xs.len() == 0 {
        Seq::empty()
    } else {
        let init = xs.drop_last();
        let g = lemma_filter_positions(init, p);
        assert forall|k: int| 0 <= k < g.len() implies xs[#[trigger] g[k]] == init[g[k]] by {}
        if p(xs.last()) {
            let f = g.push(xs.len() - 1);
            assert(xs.filter(p) == init.filter(p).push(xs.last()));
            assert forall|k: int| 0 <= k < f.len() implies 0 <= #[trigger] f[k] < xs.len() && xs[f[k]]
                == xs.filter(p)[k] by {
                if k < g.len() {
                    assert(f[k] == g[k]);
                }
            }
            assert forall|i: int| 0 <= i < xs.len() && p(#[trigger] xs[i]) implies exists|k: int|
                0 <= k < f.len() && f[k] == i by {
                if i < xs.len() - 1 {
                    assert(init[i] == xs[i]);
                    let k = choose|k: int| 0 <= k < g.len() && g[k] == i;
                    assert(f[k] == i);
                } else {
                    assert(f[g.len() as int] == i);
                }
            }
            f
        } else {
            assert(xs.filter(p) == init.filter(p));
            assert forall|i: int| 0 <= i < xs.len() && p(#[trigger] xs[i]) implies exists|k: int|
                0 <= k < g.len() && g[k] == i by {
                assert(i < xs.len() - 1);
                assert(init[i] == xs[i]);
            }
            g
        }
    }
}

} // verus!
