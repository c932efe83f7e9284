//! System registration, ordered initialization, per-tick dispatch and
//! reverse-order teardown.
//!
//! The systems themselves live in a value implementing `SystemSet`; the
//! scheduler decides which system is called when and keeps a log of every
//! initialization and teardown it performed.
use crate::resolver::{
    is_topological, resolve, takes_lowest_ready, DependencyError, SystemDescriptor,
};
use vstd::prelude::*;

verus! {

/// The systems driven by a `Context`, addressed by kind.
pub trait SystemSet {
    /// Sets up the system of `kind`; its dependencies are already set up.
    fn init(&mut self, kind: u64) -> Result<(), u64>;

    /// Runs one frame of the system of `kind`.
    fn update(&mut self, kind: u64) -> Result<(), u64>;

    /// Releases the system of `kind`; the systems it depends on are still up.
    fn teardown(&mut self, kind: u64) -> Result<(), u64>;
}

/// What a system declares when it is registered.
#[derive(Clone, Debug)]
pub struct SystemBinding {
    pub kind: u64,
    /// Kinds of the systems it must see initialized.
    pub deps: Vec<u64>,
    /// Shared resources it reads; each must be injected before registration.
    pub resources: Vec<u64>,
}

/// A registration refused on the spot.
#[derive(Clone, Copy, Debug, PartialEq, Eq)]
pub enum SystemError {
    MissingResource { system: u64, resource: u64 },
}

/// One step of a system's lifecycle, as performed by the scheduler.
#[derive(Clone, Copy, Debug, PartialEq, Eq, Structural)]
pub enum LifecycleEvent {
    Initialized(u64),
    InitFailed(u64),
    TornDown(u64),
    TeardownFailed(u64),
}

/// Where a system stands.
#[derive(Clone, Copy, Debug, PartialEq, Eq, Structural)]
pub enum Lifecycle {
    Unregistered,
    Initialized,
    TornDown,
}

/// Why `build` produced no context.
#[derive(Clone, Debug, PartialEq, Eq)]
pub enum BuildError {
    Dependency(DependencyError),
    SystemInit { kind: u64, reason: u64 },
}

/// A failed build: the error, the lifecycle log of the attempt, and the
/// systems handed back after everything initialized was torn down again.
pub struct BuildFailure<S> {
    pub error: BuildError,
    pub log: Vec<LifecycleEvent>,
    pub systems: S,
}

/// A failed tick.
#[derive(Clone, Copy, Debug, PartialEq, Eq)]
pub enum TickError {
    SystemFailed { kind: u64, reason: u64 },
    Destroyed,
}

/// Teardown failures of an explicit `destroy`, by kind, in teardown order.
#[derive(Clone, Debug, PartialEq, Eq)]
pub struct TeardownError {
    pub failed: Vec<u64>,
}

pub open spec fn is_teardown_of(e: LifecycleEvent, k: u64) -> bool {
    e == LifecycleEvent::TornDown(k) || e == LifecycleEvent::TeardownFailed(k)
}

/// `events` tears down `kinds` from last to first, one event per kind.
pub open spec fn tears_down_reversed(events: Seq<LifecycleEvent>, kinds: Seq<u64>) -> bool {
    &&& events.len() == kinds.len()
    &&& forall|t: int|
        0 <= t < events.len() ==> is_teardown_of(
            #[trigger] events[t],
            kinds[kinds.len() - 1 - t],
        )
}

/// Kinds of the failed teardowns among `events`, in order.
pub open spec fn failed_kinds(events: Seq<LifecycleEvent>) -> Seq<u64>
    decreases events.len(),
{
    if events.len() == 0 {
        Seq::empty()
    } else {
        let rest = failed_kinds(events.drop_last());
        match events.last() {
            LifecycleEvent::TeardownFailed(k) => rest.push(k),
            _ => rest,
        }
    }
}

/// `events` initializes `kinds` in order.
pub open spec fn initializes(events: Seq<LifecycleEvent>, kinds: Seq<u64>) -> bool {
    &&& events.len() == kinds.len()
    &&& forall|t: int| 0 <= t < events.len() ==> #[trigger] events[t] == LifecycleEvent::Initialized(kinds[t])
}

/// `kinds` is the resolver's order of `s`, read as kinds.
pub open spec fn is_init_order(s: Seq<SystemDescriptor>, kinds: Seq<u64>) -> bool {
    exists|o: Seq<usize>|
        {
            &&& is_topological(s, o)
            &&& takes_lowest_ready(s, o)
            &&& kinds.len() == o.len()
            &&& forall|p: int| 0 <= p < o.len() ==> #[trigger] kinds[p] == s[o[p] as int].kind
        }
}

/// Collects shared resources and system registrations.
pub struct ContextBuilder<S> {
    systems: S,
    resources: Vec<u64>,
    descriptors: Vec<SystemDescriptor>,
}

impl<S: SystemSet> ContextBuilder<S> {
    pub closed spec fn resources(self) -> Seq<u64> {
        self.resources@
    }

    pub closed spec fn descriptors(self) -> Seq<SystemDescriptor> {
        self.descriptors@
    }

    pub closed spec fn systems(self) -> S {
        self.systems
    }

    /// A builder with no resources and no systems.
    pub fn new(systems: S) -> (r: Self)
        ensures
            r.resources() == Seq::<u64>::empty(),
            r.descriptors() == Seq::<SystemDescriptor>::empty(),
            r.systems() == systems,
    {
        ContextBuilder { systems, resources: Vec::new(), descriptors: Vec::new() }
    }

    /// Makes the shared resource `resource` available to later registrations.
    pub fn inject(self, resource: u64) -> (r: Self)
        ensures
            r.resources() == self.resources().push(resource),
            r.descriptors() == self.descriptors(),
            r.systems() == self.systems(),
    {
        let mut b = self;
        b.resources.push(resource);
        b
    }

    /// Registers a system; fails at once when it reads a resource that was
    /// not injected, naming the first such resource.
    pub fn system(self, binding: SystemBinding) -> (r: Result<Self, SystemError>)
        ensures
            r is Ok <==> forall|t: int|
                0 <= t < binding.resources@.len() ==> self.resources().contains(
                    #[trigger] binding.resources@[t],
                ),
            r matches Ok(b) ==> {
                &&& b.resources() == self.resources()
                &&& b.descriptors() == self.descriptors().push(
                    SystemDescriptor { kind: binding.kind, deps: binding.deps },
                )
                &&& b.systems() == self.systems()
            },
            r matches Err(SystemError::MissingResource { system, resource }) ==> {
                &&& system == binding.kind
                &&& binding.resources@.contains(resource)
                &&& !self.resources().contains(resource)
            },
    {
        let mut t: usize = 0;
        while t < binding.resources.len()
            invariant
                t <= binding.resources@.len(),
                forall|q: int| 0 <= q < t ==> self.resources@.contains(#[trigger] binding.resources@[q]),
            decreases binding.resources@.len() - t,
        {
            let res = binding.resources[t];
            if !contains_u64(&self.resources, res) {
                proof {
                    assert(binding.resources@[t as int] == res);
                }
                return Err(SystemError::MissingResource { system: binding.kind, resource: res });
            }
            t = t + 1;
        }
        let mut b = self;
        b.descriptors.push(SystemDescriptor { kind: binding.kind, deps: binding.deps });
        Ok(b)
    }

    /// Orders the registered systems and initializes them in that order.
    ///
    /// When resolution fails nothing is initialized. When a system fails to
    /// initialize, the ones before it are torn down in reverse order before
    /// the failure is returned.
    pub fn build(self) -> (r: Result<Context<S>, BuildFailure<S>>)
        ensures
            r matches Ok(c) ==> {
                &&& c.wf()
                &&& is_init_order(self.descriptors(), c.order())
                &&& initializes(c.log(), c.order())
                &&& !c.is_destroyed()
                &&& c.tick_count() == 0
                &&& c.updated() == Seq::<u64>::empty()
            },
            r matches Err(f) ==> match f.error {
                BuildError::Dependency(e) => {
                    &&& f.log@ == Seq::<LifecycleEvent>::empty()
                    &&& f.systems == self.systems()
                    &&& resolve_fails_with(self.descriptors(), e)
                },
                BuildError::SystemInit { kind, reason } => exists|kinds: Seq<u64>, k: int|
                    #[trigger] failed_at(self.descriptors(), f.log@, kind, kinds, k),
            },
    {
        let ghost registered = self.descriptors();
        let ContextBuilder { systems, resources: _, descriptors } = self;
        assert(descriptors@ == registered);
        let mut systems = systems;
        let order = match resolve(&descriptors) {
            Ok(order) => order,
            Err(e) => {
                return Err(BuildFailure { error: BuildError::Dependency(e), log: Vec::new(), systems });
            },
        };
        let mut kinds: Vec<u64> = Vec::new();
        let mut p: usize = 0;
        while p < order.len()
            invariant
                p <= order@.len(),
                is_topological(descriptors@, order@),
                kinds@.len() == p,
                forall|q: int| 0 <= q < p ==> #[trigger] kinds@[q] == descriptors@[order@[q] as int].kind,
            decreases order@.len() - p,
        {
            kinds.push(descriptors[order[p]].kind);
            p = p + 1;
        }
        proof {
            assert(is_init_order(descriptors@, kinds@));
            assert forall|a: int, b: int| 0 <= a < b < kinds@.len() implies kinds@[a] != kinds@[b] by {
                assert(order@[a] != order@[b]);
                assert(crate::resolver::unique_kinds(descriptors@));
                assert(descriptors@[order@[a] as int].kind != descriptors@[order@[b] as int].kind);
            }
        }
        let mut log: Vec<LifecycleEvent> = Vec::new();
        let mut i: usize = 0;
        while i < kinds.len()
            invariant
                i <= kinds@.len(),
                initializes(log@, kinds@.subrange(0, i as int)),
                is_topological(descriptors@, order@),
                takes_lowest_ready(descriptors@, order@),
                kinds@.len() == order@.len(),
                forall|q: int| 0 <= q < order@.len() ==> #[trigger] kinds@[q] == descriptors@[order@[q] as int].kind,
                kinds@.no_duplicates(),
                descriptors@ == registered,
                registered == self.descriptors(),
            decreases kinds@.len() - i,
        {
            match systems.init(kinds[i]) {
                Ok(()) => {
                    log.push(LifecycleEvent::Initialized(kinds[i]));
                    proof {
                        assert(kinds@.subrange(0, i + 1) =~= kinds@.subrange(0, i as int).push(kinds@[i as int]));
                    }
                },
                Err(reason) => {
                    let kind = kinds[i];
                    let ghost before = log@;
                    log.push(LifecycleEvent::InitFailed(kind));
                    let ghost with_failure = log@;
                    let _ = teardown_reversed(&mut systems, &kinds, i, &mut log);
                    proof {
                        let k = i as int;
                        assert(log@.subrange(0, k + 1) == with_failure);
                        assert(log@[k] == log@.subrange(0, k + 1)[k]);
                        assert(log@[k] == LifecycleEvent::InitFailed(kind));
                        assert(log@.subrange(0, k) =~= before);
                        assert(log@.subrange(k + 1, 2 * k + 1) =~= log@.subrange(k + 1, log@.len() as int));
                        assert(is_init_order(descriptors@, kinds@));
                        assert(kind == kinds@[k]);
                        assert(initializes(log@.subrange(0, k), kinds@.subrange(0, k)));
                        assert(failed_at(descriptors@, log@, kind, kinds@, k));
                    }
                    let ghost final_log = log@;
                    let failure = BuildFailure { error: BuildError::SystemInit { kind, reason }, log, systems };
                    proof {
                        assert(failure.log@ == final_log);
                        assert(failed_at(self.descriptors(), failure.log@, failure.error->kind, kinds@, i as int));
                    }
                    return Err(failure);
                },
            }
            i = i + 1;
        }
        proof {
            assert(kinds@.subrange(0, kinds@.len() as int) =~= kinds@);
        }
        Ok(Context { systems, order: kinds, tick: 0, destroyed: false, log, updates: Ghost(Seq::empty()) })
    }
}

/// The log of a build whose `k`-th system, of kind `kind`, failed to
/// initialize: the ones before it were initialized in order, then torn down
/// from last to first.
pub open spec fn failed_at(
    s: Seq<SystemDescriptor>,
    log: Seq<LifecycleEvent>,
    kind: u64,
    kinds: Seq<u64>,
    k: int,
) -> bool {
    &&& is_init_order(s, kinds)
    &&& 0 <= k < kinds.len()
    &&& kind == kinds[k]
    &&& log.len() == 2 * k + 1
    &&& initializes(log.subrange(0, k), kinds.subrange(0, k))
    &&& log[k] == LifecycleEvent::InitFailed(kind)
    &&& tears_down_reversed(log.subrange(k + 1, 2 * k + 1), kinds.subrange(0, k))
}

/// The error `resolve` may return for `s`, as its contract states it.
pub open spec fn resolve_fails_with(s: Seq<SystemDescriptor>, e: DependencyError) -> bool {
    match e {
        DependencyError::DuplicateSystem(k) => exists|i: int, j: int|
            0 <= i < j < s.len() && s[i].kind == k && s[j].kind == k,
        DependencyError::MissingDependency { system, missing } => {
            &&& crate::resolver::unique_kinds(s)
            &&& !crate::resolver::registered(s, missing)
            &&& exists|i: int|
                0 <= i < s.len() && s[i].kind == system && s[i].deps@.contains(missing)
        },
        DependencyError::CyclicDependency(c) => {
            &&& crate::resolver::unique_kinds(s)
            &&& crate::resolver::all_registered(s)
            &&& crate::resolver::is_kind_cycle(s, c@)
        },
    }
}

fn contains_u64(v: &Vec<u64>, x: u64) -> (r: bool)
    ensures
        r == v@.contains(x),
{
    let mut i: usize = 0;
    while i < v.len()
        invariant
            i <= v@.len(),
            forall|q: int| 0 <= q < i ==> #[trigger] v@[q] != x,
        decreases v@.len() - i,
    {
        if v[i] == x {
            proof {
                assert(v@[i as int] == x);
            }
            return true;
        }
        i = i + 1;
    }
    false
}

/// Tears down `kinds[0..count]` from last to first, logging each; returns
/// the kinds whose teardown failed, in teardown order.
fn teardown_reversed<S: SystemSet>(
    systems: &mut S,
    kinds: &Vec<u64>,
    count: usize,
    log: &mut Vec<LifecycleEvent>,
) -> (failed: Vec<u64>)
    requires
        count <= kinds@.len(),
    ensures
        final(log)@.len() == old(log)@.len() + count,
        final(log)@.subrange(0, old(log)@.len() as int) == old(log)@,
        tears_down_reversed(
            final(log)@.subrange(old(log)@.len() as int, final(log)@.len() as int),
            kinds@.subrange(0, count as int),
        ),
        failed@ == failed_kinds(final(log)@.subrange(old(log)@.len() as int, final(log)@.len() as int)),
{
    let ghost start = log@;
    let mut failed: Vec<u64> = Vec::new();
    let mut i: usize = count;
    while i > 0
        invariant
            i <= count <= kinds@.len(),
            log@.len() == start.len() + (count - i),
            log@.subrange(0, start.len() as int) == start,
            forall|t: int|
                0 <= t < count - i ==> is_teardown_of(
                    #[trigger] log@[start.len() + t],
                    kinds@[count - 1 - t],
                ),
            failed@ == failed_kinds(log@.subrange(start.len() as int, log@.len() as int)),
        decreases i,
    {
        i = i - 1;
        let kind = kinds[i];
        let ghost before = log@;
        match systems.teardown(kind) {
            Ok(()) => {
                log.push(LifecycleEvent::TornDown(kind));
            },
            Err(_) => {
                log.push(LifecycleEvent::TeardownFailed(kind));
                failed.push(kind);
            },
        }
        proof {
            assert(log@.subrange(start.len() as int, log@.len() as int).drop_last() =~= before.subrange(
                start.len() as int,
                before.len() as int,
            ));
            assert(log@.subrange(0, start.len() as int) =~= before.subrange(0, start.len() as int));
            assert forall|t: int|
                0 <= t < count - i implies is_teardown_of(
                    #[trigger] log@[start.len() + t],
                    kinds@[count - 1 - t],
                ) by {
                if t < count - i - 1 {
                    assert(log@[start.len() + t] == before[start.len() + t]);
                }
            }
        }
    }
    proof {
        let td = log@.subrange(start.len() as int, log@.len() as int);
        let ks = kinds@.subrange(0, count as int);
        assert forall|t: int| 0 <= t < td.len() implies is_teardown_of(#[trigger] td[t], ks[ks.len() - 1 - t]) by {
            assert(td[t] == log@[start.len() + t]);
        }
    }
    failed
}

/// What one `step` does: `before` and `after` are the context around the
/// call, `r` its result.
pub open spec fn stepped<S: SystemSet>(before: Context<S>, after: Context<S>, r: Result<(), TickError>) -> bool {
    &&& (after.order() == before.order())
    &&& (after.log() == before.log())
    &&& (after.is_destroyed() == before.is_destroyed())
    &&& ((r == Err::<(), TickError>(TickError::Destroyed)) <==> before.is_destroyed())
    &&& (before.is_destroyed() ==> after == before)
    &&& (!before.is_destroyed() && before.order().len() == 0 ==> r is Ok)
    &&& (r is Ok ==> after.updated() == before.updated() + before.order())
    &&& (r is Ok ==> after.tick_count() == if before.tick_count() < u64::MAX {
        (before.tick_count() + 1) as u64
    } else {
        before.tick_count()
    })
    &&& (r matches Err(TickError::SystemFailed { kind, reason }) ==> {
        &&& !before.is_destroyed()
        &&& after.tick_count() == before.tick_count()
        &&& exists|k: int|
            0 <= k < before.order().len() && before.order()[k] == kind
                && after.updated() == before.updated() + before.order().subrange(0, k + 1)
    })
}

/// What one `destroy` does.
pub open spec fn destroyed_from<S: SystemSet>(
    before: Context<S>,
    after: Context<S>,
    r: Result<(), TeardownError>,
) -> bool {
    &&& (after.is_destroyed())
    &&& (after.order() == before.order())
    &&& (before.is_destroyed() ==> after == before && r is Ok)
    &&& (!before.is_destroyed() ==> {
        &&& after.order() == before.order()
        &&& after.tick_count() == before.tick_count()
        &&& after.log().subrange(0, before.log().len() as int) == before.log()
        &&& tears_down_reversed(
            after.log().subrange(
                before.log().len() as int,
                after.log().len() as int,
            ),
            before.order(),
        )
    })
    &&& (!before.is_destroyed() ==> after.updated() == before.updated())
    &&& (!before.is_destroyed() ==> (r is Ok <==> failed_kinds(
        after.log().subrange(before.log().len() as int, after.log().len() as int),
    ).len() == 0))
    &&& (r matches Err(e) ==> e.failed@ == failed_kinds(
        after.log().subrange(before.log().len() as int, after.log().len() as int),
    ))
}

/// Initialized systems in their order, with the tick count and the
/// lifecycle log.
pub struct Context<S> {
    systems: S,
    order: Vec<u64>,
    tick: u64,
    destroyed: bool,
    log: Vec<LifecycleEvent>,
    updates: Ghost<Seq<u64>>,
}

impl<S: SystemSet> Context<S> {
    /// Kinds of the systems in initialization order.
    pub closed spec fn order(self) -> Seq<u64> {
        self.order@
    }

    pub closed spec fn log(self) -> Seq<LifecycleEvent> {
        self.log@
    }

    /// Kinds passed to `update`, in call order, over the context's life.
    pub closed spec fn updated(self) -> Seq<u64> {
        self.updates@
    }

    pub closed spec fn tick_count(self) -> u64 {
        self.tick
    }

    pub closed spec fn is_destroyed(self) -> bool {
        self.destroyed
    }

    pub closed spec fn systems(self) -> S {
        self.systems
    }

    /// The initialized kinds are distinct.
    pub closed spec fn wf(self) -> bool {
        self.order@.no_duplicates()
    }

    /// The lifecycle log so far.
    pub fn lifecycle_log(&self) -> (r: &Vec<LifecycleEvent>)
        ensures
            r@ == self.log(),
    {
        &self.log
    }

    /// Kinds of the systems in initialization order.
    pub fn init_order(&self) -> (r: &Vec<u64>)
        ensures
            r@ == self.order(),
    {
        &self.order
    }

    /// Number of ticks completed.
    pub fn ticks(&self) -> (r: u64)
        ensures
            r == self.tick_count(),
    {
        self.tick
    }

    /// Whether `destroy` has run.
    pub fn destroyed(&self) -> (r: bool)
        ensures
            r == self.is_destroyed(),
    {
        self.destroyed
    }

    /// The systems.
    pub fn system_set(&self) -> (r: &S)
        ensures
            *r == self.systems(),
    {
        &self.systems
    }

    /// Where the system of `kind` stands.
    pub fn state_of(&self, kind: u64) -> (r: Lifecycle)
        ensures
            !self.order().contains(kind) ==> r == Lifecycle::Unregistered,
            self.order().contains(kind) && !self.is_destroyed() ==> r == Lifecycle::Initialized,
            self.order().contains(kind) && self.is_destroyed() ==> r == Lifecycle::TornDown,
    {
        if !contains_u64(&self.order, kind) {
            Lifecycle::Unregistered
        } else if self.destroyed {
            Lifecycle::TornDown
        } else {
            Lifecycle::Initialized
        }
    }

    /// Runs one frame: updates every system in initialization order. The
    /// first failing system ends the frame and its error is returned; the
    /// tick count moves on only for a completed frame.
    pub fn step(&mut self) -> (r: Result<(), TickError>)
        ensures
            stepped(*old(self), *final(self), r),
    {
        if self.destroyed {
            return Err(TickError::Destroyed);
        }
        let mut i: usize = 0;
        while i < self.order.len()
            invariant
                i <= self.order@.len(),
                self.order@ == old(self).order@,
                self.log@ == old(self).log@,
                self.tick == old(self).tick,
                self.destroyed == old(self).destroyed,
                !self.destroyed,
                self.updates@ == old(self).updates@ + self.order@.subrange(0, i as int),
            decreases self.order@.len() - i,
        {
            let kind = self.order[i];
            let r = self.systems.update(kind);
            proof {
                self.updates@ = self.updates@.push(kind);
                assert(self.order@.subrange(0, i + 1) =~= self.order@.subrange(0, i as int).push(kind));
            }
            match r {
                Ok(()) => {},
                Err(reason) => {
                    proof {
                        assert(self.order@[i as int] == kind);
                    }
                    return Err(TickError::SystemFailed { kind, reason });
                },
            }
            i = i + 1;
        }
        proof {
            assert(self.order@.subrange(0, self.order@.len() as int) =~= self.order@);
        }
        if self.tick < u64::MAX {
            self.tick = self.tick + 1;
        }
        Ok(())
    }

    /// Tears every system down in reverse initialization order, once. A
    /// later call changes nothing. Every system is torn down even when some
    /// teardown fails; the failures are returned together.
    pub fn destroy(&mut self) -> (r: Result<(), TeardownError>)
        ensures
            destroyed_from(*old(self), *final(self), r),
    {
        if self.destroyed {
            return Ok(());
        }
        let count = self.order.len();
        let failed = teardown_reversed(&mut self.systems, &self.order, count, &mut self.log);
        self.destroyed = true;
        proof {
            assert(self.order@.subrange(0, count as int) =~= self.order@);
        }
        if failed.len() == 0 {
            Ok(())
        } else {
            Err(TeardownError { failed })
        }
    }
}

} // verus!
