//! The container builder: runs the initializers of the synchronous
//! descriptors in an order in which each finds what it depends on, and leads
//! the caller through the asynchronous ones, one at a time.

use std::any::TypeId;
use vstd::prelude::*;

use crate::deps::{DependencyValue, Deps};
use crate::descriptor::{graph_of, ADepData, DepData};
use crate::error::DepsError;
use crate::graph::{has_cycle, is_topological_order};
use crate::graph_sorter::{arranged, is_sorted_arrangement, GraphSorter};
use crate::registry::{asyncness_mismatch, Registry};

verus! {

/// The initializer of `d`, run on `store`, may hand out `value`.
pub open spec fn yields<I: Fn(&Deps) -> Result<DependencyValue, DepsError>>(
    d: DepData<I>,
    store: Deps,
    value: DependencyValue,
) -> bool {
    call_ensures(d.initializer, (&store,), Ok::<DependencyValue, DepsError>(value))
}

/// The initializer of `d`, run on `store`, may fail with `error`.
pub open spec fn fails<I: Fn(&Deps) -> Result<DependencyValue, DepsError>>(
    d: DepData<I>,
    store: Deps,
    error: DepsError,
) -> bool {
    call_ensures(d.initializer, (&store,), Err::<DependencyValue, DepsError>(error))
}

/// Step `k` of a build: the initializer of descriptor `k` ran on store `k`,
/// and store `k + 1` is store `k` with its value under the descriptor's key.
pub open spec fn step_taken<I: Fn(&Deps) -> Result<DependencyValue, DepsError>>(
    steps: Seq<DepData<I>>,
    stores: Seq<Deps>,
    k: int,
) -> bool {
    exists|value: DependencyValue| #[trigger]
        yields(steps[k], stores[k], value) && stores[k + 1]@ == stores[k]@.insert(
            steps[k].type_id,
            value,
        )
}

/// `stores` are the stores that a build over `steps` went through: the first
/// is what it began with, and each further one comes from the step before it.
pub open spec fn is_run<I: Fn(&Deps) -> Result<DependencyValue, DepsError>>(
    steps: Seq<DepData<I>>,
    stores: Seq<Deps>,
) -> bool {
    &&& 1 <= stores.len() <= steps.len() + 1
    &&& forall|k: int| 0 <= k < stores.len() - 1 ==> #[trigger] step_taken(steps, stores, k)
}

/// `stores` is a run over `steps` from `seeds` that ends as `r` says: with
/// the store after the last step, or with the error of the first initializer
/// that failed.
pub open spec fn run_ends<I: Fn(&Deps) -> Result<DependencyValue, DepsError>>(
    seeds: Deps,
    steps: Seq<DepData<I>>,
    stores: Seq<Deps>,
    r: Result<Deps, DepsError>,
) -> bool {
    &&& is_run(steps, stores)
    &&& stores[0] == seeds
    &&& match r {
        Ok(store) => stores.len() == steps.len() + 1 && stores[stores.len() - 1] == store,
        Err(error) => stores.len() <= steps.len() && fails(
            steps[stores.len() - 1],
            stores[stores.len() - 1],
            error,
        ),
    }
}

/// Running the initializers of `steps` in their order, from `seeds`, may end
/// as `r` says.
pub open spec fn build_result<I: Fn(&Deps) -> Result<DependencyValue, DepsError>>(
    seeds: Deps,
    steps: Seq<DepData<I>>,
    r: Result<Deps, DepsError>,
) -> bool {
    exists|stores: Seq<Deps>| #[trigger] run_ends(seeds, steps, stores, r)
}

/// The initializer of `d` can be run on `store`.
pub open spec fn can_run<I: Fn(&Deps) -> Result<DependencyValue, DepsError>>(
    d: DepData<I>,
    store: Deps,
) -> bool {
    call_requires(d.initializer, (&store,))
}

/// Every initializer can be run on every store.
pub open spec fn runnable<I: Fn(&Deps) -> Result<DependencyValue, DepsError>>(
    steps: Seq<DepData<I>>,
) -> bool {
    forall|i: int, store: Deps| 0 <= i < steps.len() ==> #[trigger] can_run(steps[i], store)
}

/// What a synchronous build over a registry owes: a registry with an
/// asyncness mismatch or a cycle among its synchronous descriptors is
/// rejected before any initializer runs; otherwise the initializers run in a
/// topological order of the descriptors.
pub open spec fn sync_build<I: Fn(&Deps) -> Result<DependencyValue, DepsError>, A>(
    seeds: Deps,
    sync: Seq<DepData<I>>,
    asynchronous: Seq<ADepData<A>>,
    r: Result<Deps, DepsError>,
) -> bool {
    if asyncness_mismatch(graph_of(sync), graph_of(asynchronous)) {
        r == Err::<Deps, DepsError>(DepsError::AsyncnessMismatch)
    } else if has_cycle(graph_of(sync)) {
        r == Err::<Deps, DepsError>(DepsError::CyclicDependency)
    } else {
        exists|steps: Seq<DepData<I>>|
            is_sorted_arrangement(sync, steps) && #[trigger] build_result(seeds, steps, r)
    }
}

/// What the start of an asynchronous build owes: the whole synchronous build
/// first, and only after it the order of the asynchronous descriptors, none
/// of which has been awaited yet.
pub open spec fn async_start<I: Fn(&Deps) -> Result<DependencyValue, DepsError>, A>(
    seeds: Deps,
    sync: Seq<DepData<I>>,
    asynchronous: Seq<ADepData<A>>,
    r: Result<AsyncBuild<A>, DepsError>,
) -> bool {
    exists|before: Result<Deps, DepsError>| #[trigger]
        sync_build(seeds, sync, asynchronous, before) && match before {
            Err(error) => r == Err::<AsyncBuild<A>, DepsError>(error),
            Ok(store) => if has_cycle(graph_of(asynchronous)) {
                r == Err::<AsyncBuild<A>, DepsError>(DepsError::CyclicDependency)
            } else {
                &&& r is Ok
                &&& r->Ok_0.store() == store
                &&& r->Ok_0.position() == 0
                &&& is_sorted_arrangement(asynchronous, r->Ok_0.pending())
            },
        }
}

/// Builds a store from seeds and a registry. A builder is used once.
pub struct DepsBuilder {
    deps: Deps,
}

impl DepsBuilder {
    /// The store that the builder holds: the seeds, until a build has run.
    pub closed spec fn store(&self) -> Deps {
        self.deps
    }

    /// A builder that starts from the seeds given.
    pub fn new(deps: Deps) -> (builder: Self)
        ensures
            builder.store() == deps,
    {
        Self { deps }
    }

    /// Runs the initializers of `steps` in their order, each on the store as
    /// the steps before it left it, and keeps each value under its
    /// descriptor's key. The first initializer that fails ends the run.
    fn _build_sync<I: Fn(&Deps) -> Result<DependencyValue, DepsError>>(
        &mut self,
        steps: &Vec<DepData<I>>,
    ) -> (r: Result<(), DepsError>)
        requires
            runnable(steps@),
        ensures
            build_result(
                old(self).store(),
                steps@,
                match r {
                    Ok(()) => Ok::<Deps, DepsError>(final(self).store()),
                    Err(error) => Err::<Deps, DepsError>(error),
                },
            ),
    {
        let ghost seeds = self.deps;
        let ghost mut stores: Seq<Deps> = seq![self.deps];
        let mut k: usize = 0;
        while k < steps.len()
            invariant
                k <= steps@.len(),
                runnable(steps@),
                stores.len() == k + 1,
                is_run(steps@, stores),
                stores[0] == seeds,
                stores[k as int] == self.deps,
                seeds == old(self).store(),
            decreases steps@.len() - k,
        {
            let dep = &steps[k];
            let ghost now = self.deps;
            assert(can_run(steps@[k as int], now));
            match (dep.initializer)(&self.deps) {
                Err(error) => {
                    proof {
                        assert(fails(steps@[k as int], stores[k as int], error));
                        assert(run_ends(seeds, steps@, stores, Err::<Deps, DepsError>(error)));
                    }
                    return Err(error);
                },
                Ok(value) => {
                    self.deps.insert(dep.type_id, value);
                    proof {
                        let longer = stores.push(self.deps);
                        assert(yields(steps@[k as int], longer[k as int], value));
                        assert(step_taken(steps@, longer, k as int));
                        assert forall|j: int| 0 <= j < longer.len() - 1 implies #[trigger] step_taken(
                            steps@,
                            longer,
                            j,
                        ) by {
                            if j < k {
                                assert(step_taken(steps@, stores, j));
                                let v = choose|v: DependencyValue| #[trigger]
                                    yields(steps@[j], stores[j], v) && stores[j + 1]@ == stores[j]@.insert(
                                        steps@[j].type_id,
                                        v,
                                    );
                                assert(yields(steps@[j], longer[j], v));
                            }
                        }
                        stores = longer;
                    }
                },
            }
            k = k + 1;
        }
        proof {
            assert(run_ends(seeds, steps@, stores, Ok::<Deps, DepsError>(self.deps)));
        }
        Ok(())
    }

    /// Ends the building and hands out the store.
    fn _get_deps(self) -> (deps: Deps)
        ensures
            deps == self.store(),
    {
        self.deps
    }

    /// Checks the registry, orders its synchronous descriptors and runs their
    /// initializers.
    fn sync_phase<I: Fn(&Deps) -> Result<DependencyValue, DepsError>, A>(
        &mut self,
        sync: Vec<DepData<I>>,
        asynchronous: &Vec<ADepData<A>>,
    ) -> (r: Result<(), DepsError>)
        requires
            runnable(sync@),
        ensures
            sync_build(
                old(self).store(),
                sync@,
                asynchronous@,
                match r {
                    Ok(()) => Ok::<Deps, DepsError>(final(self).store()),
                    Err(error) => Err::<Deps, DepsError>(error),
                },
            ),
    {
        match crate::registry::check_asyncness(&sync, asynchronous) {
            Err(error) => {
                return Err(error);
            },
            Ok(()) => {},
        }
        let ghost items = sync@;
        match GraphSorter::sort(sync) {
            Err(error) => Err(error),
            Ok(steps) => {
                proof {
                    lemma_arranged_runnable(items, steps@);
                }
                self._build_sync(&steps)
            },
        }
    }

    /// Builds the store: the seeds, and on top of them the value of every
    /// synchronous descriptor of the registry, each produced after the values
    /// it depends on.
    pub fn build<I: Fn(&Deps) -> Result<DependencyValue, DepsError>, A>(
        self,
        registry: Registry<I, A>,
    ) -> (r: Result<Deps, DepsError>)
        requires
            runnable(registry.descriptors()),
        ensures
            sync_build(self.store(), registry.descriptors(), registry.async_descriptors(), r),
    {
        let mut builder = self;
        let (sync, asynchronous) = registry.into_parts();
        match builder.sync_phase(sync, &asynchronous) {
            Err(error) => Err(error),
            Ok(()) => Ok(builder._get_deps()),
        }
    }

    /// Starts an asynchronous build: runs the whole synchronous build, then
    /// orders the asynchronous descriptors. The caller awaits their
    /// initializers one by one, as the `AsyncBuild` names them.
    pub fn begin_async<I: Fn(&Deps) -> Result<DependencyValue, DepsError>, A>(
        self,
        registry: Registry<I, A>,
    ) -> (r: Result<AsyncBuild<A>, DepsError>)
        requires
            runnable(registry.descriptors()),
        ensures
            async_start(self.store(), registry.descriptors(), registry.async_descriptors(), r),
    {
        let mut builder = self;
        let ghost seeds = builder.store();
        let (sync, asynchronous) = registry.into_parts();
        let ghost sync_items = sync@;
        let ghost async_items = asynchronous@;
        match builder.sync_phase(sync, &asynchronous) {
            Err(error) => {
                proof {
                    assert(sync_build(seeds, sync_items, async_items, Err::<Deps, DepsError>(error)));
                }
                Err(error)
            },
            Ok(()) => {
                let ghost built = builder.store();
                proof {
                    assert(sync_build(seeds, sync_items, async_items, Ok::<Deps, DepsError>(built)));
                }
                match GraphSorter::sort(asynchronous) {
                    Err(error) => Err(error),
                    Ok(pending) => Ok(AsyncBuild { deps: builder._get_deps(), pending, position: 0 }),
                }
            },
        }
    }
}

/// Descriptors taken in another order can be run as well.
proof fn lemma_arranged_runnable<I: Fn(&Deps) -> Result<DependencyValue, DepsError>>(
    items: Seq<DepData<I>>,
    steps: Seq<DepData<I>>,
)
    requires
        runnable(items),
        is_sorted_arrangement(items, steps),
    ensures
        runnable(steps),
{
    let order = choose|order: Seq<int>|
        is_topological_order(graph_of(items), order) && steps == #[trigger] arranged(items, order);
    assert forall|i: int, store: Deps| 0 <= i < steps.len() implies #[trigger] can_run(
        steps[i],
        store,
    ) by {
        assert(0 <= order[i] < items.len());
        assert(steps[i] == items[order[i]]);
        assert(can_run(items[order[i]], store));
    }
}

/// An asynchronous build under way: the store so far, the asynchronous
/// descriptors in the order of their construction, and how many of them have
/// been awaited. The caller awaits the initializer of the current descriptor
/// on the store and hands the value back, until none is left.
pub struct AsyncBuild<A> {
    deps: Deps,
    pending: Vec<ADepData<A>>,
    position: usize,
}

impl<A> AsyncBuild<A> {
    /// The store as built so far.
    pub closed spec fn store(&self) -> Deps {
        self.deps
    }

    /// The asynchronous descriptors, in the order of their construction.
    pub closed spec fn pending(&self) -> Seq<ADepData<A>> {
        self.pending@
    }

    /// How many descriptors have been awaited.
    pub closed spec fn position(&self) -> int {
        self.position as int
    }

    /// Every descriptor has been awaited.
    pub open spec fn complete(&self) -> bool {
        self.position() >= self.pending().len()
    }

    /// The store as built so far, for the initializer that is awaited next.
    pub fn deps(&self) -> (deps: &Deps)
        ensures
            *deps == self.store(),
    {
        &self.deps
    }

    /// Whether every descriptor has been awaited.
    pub fn is_complete(&self) -> (done: bool)
        ensures
            done == self.complete(),
    {
        self.position >= self.pending.len()
    }

    /// The descriptor whose initializer is to be awaited next, if one is left.
    pub fn current(&self) -> (next: Option<&ADepData<A>>)
        ensures
            match next {
                Some(descriptor) => !self.complete() && *descriptor == self.pending()[self.position()],
                None => self.complete(),
            },
    {
        if self.position < self.pending.len() {
            Some(&self.pending[self.position])
        } else {
            None
        }
    }

    /// Takes the value that the current descriptor's initializer produced:
    /// keeps it under the descriptor's key and moves on to the next
    /// descriptor. Where no descriptor is left, nothing changes and the
    /// answer is `false`.
    pub fn resolve(&mut self, value: DependencyValue) -> (accepted: bool)
        ensures
            accepted == !old(self).complete(),
            final(self).pending() == old(self).pending(),
            accepted ==> final(self).position() == old(self).position() + 1 && final(self).store()@
                == old(self).store()@.insert(
                old(self).pending()[old(self).position()].type_id,
                value,
            ),
            !accepted ==> final(self).position() == old(self).position() && final(self).store()
                == old(self).store(),
    {
        if self.position < self.pending.len() {
            let key: TypeId = self.pending[self.position].type_id;
            self.deps.insert(key, value);
            self.position = self.position + 1;
            true
        } else {
            false
        }
    }

    /// Ends the build and hands out the store, once every descriptor has been
    /// awaited. A build that is given up earlier hands out nothing: its store
    /// is lost with it.
    pub fn finish(self) -> (built: Option<Deps>)
        ensures
            match built {
                Some(store) => self.complete() && store == self.store(),
                None => !self.complete(),
            },
    {
        if self.position >= self.pending.len() {
            Some(self.deps)
        } else {
            None
        }
    }
}

/// What a store of a run holds, every later store of the run holds too:
/// nothing is removed during a build.
pub proof fn lemma_keys_kept<I: Fn(&Deps) -> Result<DependencyValue, DepsError>>(
    steps: Seq<DepData<I>>,
    stores: Seq<Deps>,
    a: int,
    b: int,
    key: TypeId,
)
    requires
        is_run(steps, stores),
        0 <= a <= b < stores.len(),
        stores[a]@.contains_key(key),
    ensures
        stores[b]@.contains_key(key),
    decreases b - a,
{
    if a < b {
        lemma_keys_kept(steps, stores, a, b - 1, key);
        assert(step_taken(steps, stores, b - 1));
    }
}

/// A value stays as it was kept: across the steps of a run whose descriptors
/// produce other keys, the store holds the same value under `key`.
pub proof fn lemma_values_kept<I: Fn(&Deps) -> Result<DependencyValue, DepsError>>(
    steps: Seq<DepData<I>>,
    stores: Seq<Deps>,
    a: int,
    b: int,
    key: TypeId,
)
    requires
        is_run(steps, stores),
        0 <= a <= b < stores.len(),
        stores[a]@.contains_key(key),
        forall|i: int| a <= i < b ==> (#[trigger] steps[i]).type_id != key,
    ensures
        stores[b]@.contains_key(key),
        stores[b]@[key] == stores[a]@[key],
    decreases b - a,
{
    if a < b {
        lemma_values_kept(steps, stores, a, b - 1, key);
        assert(step_taken(steps, stores, b - 1));
        assert(steps[b - 1].type_id != key);
    }
}

/// Seeds come first and stay: a seed whose key no descriptor produces is in
/// every store that an initializer of the run is handed, with the value it
/// was seeded with.
pub proof fn lemma_seed_precedence<I: Fn(&Deps) -> Result<DependencyValue, DepsError>>(
    steps: Seq<DepData<I>>,
    stores: Seq<Deps>,
    key: TypeId,
    k: int,
)
    requires
        is_run(steps, stores),
        stores[0]@.contains_key(key),
        forall|i: int| 0 <= i < steps.len() ==> (#[trigger] steps[i]).type_id != key,
        0 <= k < stores.len(),
    ensures
        stores[k]@.contains_key(key),
        stores[k]@[key] == stores[0]@[key],
{
    lemma_values_kept(steps, stores, 0, k, key);
}

/// A store of a run holds a value under the key of every descriptor whose
/// step lies behind it.
pub proof fn lemma_built_so_far<I: Fn(&Deps) -> Result<DependencyValue, DepsError>>(
    steps: Seq<DepData<I>>,
    stores: Seq<Deps>,
    i: int,
    k: int,
)
    requires
        is_run(steps, stores),
        0 <= i < k < stores.len(),
    ensures
        stores[k]@.contains_key(steps[i].type_id),
{
    assert(step_taken(steps, stores, i));
    lemma_keys_kept(steps, stores, i + 1, k, steps[i].type_id);
}

/// A synchronous build that succeeds leaves a value under the key of every
/// synchronous descriptor of the registry, and keeps every seed whose key no
/// descriptor produces.
pub proof fn lemma_build_complete<I: Fn(&Deps) -> Result<DependencyValue, DepsError>, A>(
    seeds: Deps,
    sync: Seq<DepData<I>>,
    asynchronous: Seq<ADepData<A>>,
    built: Deps,
)
    requires
        sync_build(seeds, sync, asynchronous, Ok::<Deps, DepsError>(built)),
    ensures
        forall|i: int| 0 <= i < sync.len() ==> built@.contains_key((#[trigger] sync[i]).type_id),
        forall|key: TypeId|
            seeds@.contains_key(key) && (forall|i: int|
                0 <= i < sync.len() ==> (#[trigger] sync[i]).type_id != key) ==> #[trigger] built@.contains_key(
                key,
            ) && built@[key] == seeds@[key],
{
    let r = Ok::<Deps, DepsError>(built);
    let steps = choose|steps: Seq<DepData<I>>|
        is_sorted_arrangement(sync, steps) && #[trigger] build_result(seeds, steps, r);
    let order = choose|order: Seq<int>|
        is_topological_order(graph_of(sync), order) && steps == #[trigger] arranged(sync, order);
    let stores = choose|stores: Seq<Deps>| #[trigger] run_ends(seeds, steps, stores, r);
    assert forall|i: int| 0 <= i < sync.len() implies built@.contains_key((#[trigger] sync[i]).type_id) by {
        assert(order.contains(i));
        let a = choose|a: int| 0 <= a < order.len() && order[a] == i;
        assert(steps[a] == sync[i]);
        lemma_built_so_far(steps, stores, a, stores.len() - 1);
    }
    assert forall|key: TypeId|
        seeds@.contains_key(key) && (forall|i: int|
            0 <= i < sync.len() ==> (#[trigger] sync[i]).type_id != key) implies #[trigger] built@.contains_key(
        key,
    ) && built@[key] == seeds@[key] by {
        assert forall|a: int| 0 <= a < steps.len() implies (#[trigger] steps[a]).type_id != key by {
            assert(0 <= order[a] < sync.len());
            assert(steps[a] == sync[order[a]]);
        }
        lemma_seed_precedence(steps, stores, key, stores.len() - 1);
    }
}

/// The synchronous phase comes first: when an asynchronous build has
/// started, no asynchronous initializer has been awaited yet, and the store
/// already holds a value under the key of every synchronous descriptor.
pub proof fn lemma_sync_before_async<I: Fn(&Deps) -> Result<DependencyValue, DepsError>, A>(
    seeds: Deps,
    sync: Seq<DepData<I>>,
    asynchronous: Seq<ADepData<A>>,
    started: AsyncBuild<A>,
)
    requires
        async_start(seeds, sync, asynchronous, Ok::<AsyncBuild<A>, DepsError>(started)),
    ensures
        started.position() == 0,
        forall|i: int|
            0 <= i < sync.len() ==> started.store()@.contains_key((#[trigger] sync[i]).type_id),
{
    let r = Ok::<AsyncBuild<A>, DepsError>(started);
    let before = choose|before: Result<Deps, DepsError>| #[trigger]
        sync_build(seeds, sync, asynchronous, before) && match before {
            Err(error) => r == Err::<AsyncBuild<A>, DepsError>(error),
            Ok(store) => if has_cycle(graph_of(asynchronous)) {
                r == Err::<AsyncBuild<A>, DepsError>(DepsError::CyclicDependency)
            } else {
                &&& r is Ok
                &&& r->Ok_0.store() == store
                &&& r->Ok_0.position() == 0
                &&& is_sorted_arrangement(asynchronous, r->Ok_0.pending())
            },
        };
    lemma_build_complete(seeds, sync, asynchronous, before->Ok_0);
}

} // verus!
