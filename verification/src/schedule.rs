//! Dependency-ordered system scheduling, and the application shell that
//! composes the default systems.
//!
//! Systems are registered with the storages they touch implied by their
//! kind, and with the identifiers of the systems that must complete
//! earlier in the same tick. Registration only accepts dependencies that
//! are already registered, and the dispatcher executes entries in
//! registration order, so every dependency runs before its dependents;
//! the deferred queue is flushed after each system, which makes all
//! mutations staged by one system visible to the next.

use vstd::prelude::*;

use crate::hierarchy::HierarchySystem;
use crate::hierarchy::maintenance_spec;
use crate::transform::TransformSystem;
use crate::transform::propagation_spec;
use crate::world::LazyOp;
use crate::world::World;

verus! {

/// Identifier a registration hands back; dependencies are named by it.
#[derive(Clone, Copy, PartialEq, Eq, Structural, Debug)]
pub struct SystemId(pub usize);

/// The units of per-tick computation the engine knows.
#[derive(Clone, Copy, PartialEq, Eq, Structural, Debug)]
pub enum SystemKind {
    HierarchyMaintenance,
    TransformPropagation,
}

/// Each entry's dependencies point at earlier entries, so registration
/// order respects every declared dependency.
pub open spec fn deps_respected(entries: Seq<(SystemKind, Seq<usize>)>) -> bool {
    forall|i: int, d: int|
        0 <= i < entries.len() && 0 <= d < entries[i].1.len()
            ==> (#[trigger] entries[i].1[d]) < i
}

/// Collects system registrations, checking each declared dependency.
pub struct DispatcherBuilder {
    entries: Vec<(SystemKind, Vec<usize>)>,
}

impl DispatcherBuilder {
    pub closed spec fn entries_view(self) -> Seq<(SystemKind, Seq<usize>)> {
        self.entries@.map_values(|e: (SystemKind, Vec<usize>)| (e.0, e.1@))
    }

    pub open spec fn wf(self) -> bool {
        deps_respected(self.entries_view())
    }

    pub fn new() -> (b: Self)
        ensures
            b.wf(),
            b.entries_view() == Seq::<(SystemKind, Seq<usize>)>::empty(),
    {
        let b = DispatcherBuilder { entries: Vec::new() };
        proof {
            assert(b.entries_view() =~= Seq::<(SystemKind, Seq<usize>)>::empty());
        }
        b
    }

    /// Register a system under a human-readable name, after every system
    /// it depends on; the returned identifier names it in later
    /// registrations.
    pub fn add(&mut self, kind: SystemKind, _name: &str, dependencies: &[SystemId]) -> (id:
        SystemId)
        requires
            old(self).wf(),
            forall|d: int|
                0 <= d < dependencies@.len() ==> (#[trigger] dependencies@[d]).0
                    < old(self).entries_view().len(),
        ensures
            final(self).wf(),
            id.0 == old(self).entries_view().len(),
            final(self).entries_view() == old(self).entries_view().push(
                (kind, dependencies@.map_values(|sid: SystemId| sid.0)),
            ),
    {
        let id = SystemId(self.entries.len());
        let mut deps: Vec<usize> = Vec::new();
        let mut d: usize = 0;
        while d < dependencies.len()
            invariant
                0 <= d <= dependencies@.len(),
                deps@.len() == d,
                forall|k: int| 0 <= k < d ==> #[trigger] deps@[k] == dependencies@[k].0,
                forall|k: int|
                    0 <= k < dependencies@.len() ==> (#[trigger] dependencies@[k]).0
                        < old(self).entries_view().len(),
                self.entries@ == old(self).entries@,
            decreases dependencies@.len() - d,
        {
            deps.push(dependencies[d].0);
            d = d + 1;
        }
        proof {
            assert(deps@ =~= dependencies@.map_values(|sid: SystemId| sid.0));
        }
        self.entries.push((kind, deps));
        proof {
            assert(self.entries_view() =~= old(self).entries_view().push(
                (kind, dependencies@.map_values(|sid: SystemId| sid.0)),
            ));
            assert forall|i: int, dd: int|
                0 <= i < self.entries_view().len() && 0 <= dd < self.entries_view()[i].1.len()
                implies (#[trigger] self.entries_view()[i].1[dd]) < i by {
                if i < old(self).entries_view().len() {
                    assert(self.entries_view()[i] == old(self).entries_view()[i]);
                }
            }
        }
        id
    }
}

/// One registered system has run over the world: the maintenance or
/// propagation pass, by the entry's kind, followed by the barrier.
pub open spec fn step_spec(d: Dispatcher, kind: SystemKind, w1: World, w2: World) -> bool {
    exists|wmid: World|
        #![trigger World::barrier_spec(wmid, w2)]
        (match kind {
            SystemKind::HierarchyMaintenance => maintenance_spec(
                w1,
                wmid,
                d.hierarchy.reader_id.unwrap(),
            ),
            SystemKind::TransformPropagation => propagation_spec(
                w1,
                wmid,
                d.transform.reader_id.unwrap(),
            ),
        }) && World::barrier_spec(wmid, w2)
}

/// The whole tick: every registered system has run over the world, in
/// registration order, each step followed by its barrier.
pub open spec fn ticks_spec(
    d: Dispatcher,
    entries: Seq<(SystemKind, Seq<usize>)>,
    w1: World,
    w2: World,
) -> bool
    decreases entries.len(),
{
    if entries.len() == 0 {
        w2 == w1
    } else {
        exists|wm: World|
            #![trigger step_spec(d, entries.last().0, wm, w2)]
            ticks_spec(d, entries.drop_last(), w1, wm) && step_spec(d, entries.last().0, wm, w2)
    }
}

/// Runs the registered systems once per tick, in registration order —
/// which `DispatcherBuilder` guarantees respects every declared
/// dependency — flushing the deferred queue after each system.
pub struct Dispatcher {
    pub entries: Vec<(SystemKind, Vec<usize>)>,
    pub hierarchy: HierarchySystem,
    pub transform: TransformSystem,
}

impl Dispatcher {
    /// Both systems own a reader cursor that is registered on `w`.
    pub open spec fn wired(self, w: World) -> bool {
        &&& self.hierarchy.reader_id is Some
        &&& self.hierarchy.reader_id.unwrap().id < w.parents.reader_count()
        &&& self.transform.reader_id is Some
        &&& self.transform.reader_id.unwrap().id < w.locals.reader_count()
    }

    pub open spec fn entries_view(self) -> Seq<(SystemKind, Seq<usize>)> {
        self.entries@.map_values(|e: (SystemKind, Vec<usize>)| (e.0, e.1@))
    }

    /// A dispatcher with nothing registered yet; both systems get their
    /// reader cursor now, so no later event escapes them.
    pub fn new(w: &mut World) -> (d: Dispatcher)
        requires
            old(w).wf(),
        ensures
            final(w).wf(),
            d.wired(*final(w)),
            deps_respected(d.entries_view()),
            d.entries_view() == Seq::<(SystemKind, Seq<usize>)>::empty(),
            final(w).entity_count == old(w).entity_count,
            final(w).lazy == old(w).lazy,
            forall|x: int| #[trigger] final(w).parents.spec_get(x) == old(w).parents.spec_get(x),
            forall|x: int| #[trigger] final(w).locals.spec_get(x) == old(w).locals.spec_get(x),
            final(w).prev_parents == old(w).prev_parents,
            final(w).children == old(w).children,
            final(w).globals == old(w).globals,
    {
        let mut hierarchy = HierarchySystem::new();
        hierarchy.setup(w);
        let mut transform = TransformSystem::new();
        transform.setup(w);
        let d = Dispatcher { entries: Vec::new(), hierarchy, transform };
        proof {
            assert(d.entries_view() =~= Seq::<(SystemKind, Seq<usize>)>::empty());
        }
        d
    }

    /// Register a system under a human-readable name, after every system
    /// it depends on.
    pub fn add(&mut self, kind: SystemKind, _name: &str, dependencies: &[SystemId]) -> (id:
        SystemId)
        requires
            deps_respected(old(self).entries_view()),
            forall|d: int|
                0 <= d < dependencies@.len() ==> (#[trigger] dependencies@[d]).0
                    < old(self).entries_view().len(),
        ensures
            deps_respected(final(self).entries_view()),
            id.0 == old(self).entries_view().len(),
            final(self).entries_view() == old(self).entries_view().push(
                (kind, dependencies@.map_values(|sid: SystemId| sid.0)),
            ),
            final(self).hierarchy == old(self).hierarchy,
            final(self).transform == old(self).transform,
    {
        let id = SystemId(self.entries.len());
        let mut deps: Vec<usize> = Vec::new();
        let mut d: usize = 0;
        while d < dependencies.len()
            invariant
                0 <= d <= dependencies@.len(),
                deps@.len() == d,
                forall|k: int| 0 <= k < d ==> #[trigger] deps@[k] == dependencies@[k].0,
                forall|k: int|
                    0 <= k < dependencies@.len() ==> (#[trigger] dependencies@[k]).0
                        < old(self).entries_view().len(),
                self.entries@ == old(self).entries@,
                self.hierarchy == old(self).hierarchy,
                self.transform == old(self).transform,
            decreases dependencies@.len() - d,
        {
            deps.push(dependencies[d].0);
            d = d + 1;
        }
        proof {
            assert(deps@ =~= dependencies@.map_values(|sid: SystemId| sid.0));
        }
        self.entries.push((kind, deps));
        proof {
            assert(self.entries_view() =~= old(self).entries_view().push(
                (kind, dependencies@.map_values(|sid: SystemId| sid.0)),
            ));
            assert forall|i: int, dd: int|
                0 <= i < self.entries_view().len() && 0 <= dd < self.entries_view()[i].1.len()
                implies (#[trigger] self.entries_view()[i].1[dd]) < i by {
                if i < old(self).entries_view().len() {
                    assert(self.entries_view()[i] == old(self).entries_view()[i]);
                }
            }
        }
        id
    }

    /// Build the dispatcher from the collected registrations, wiring each
    /// system's reader cursor to the world.
    pub fn build(builder: DispatcherBuilder, w: &mut World) -> (d: Dispatcher)
        requires
            old(w).wf(),
        ensures
            final(w).wf(),
            d.wired(*final(w)),
            final(w).entity_count == old(w).entity_count,
            final(w).lazy == old(w).lazy,
            forall|x: int| #[trigger] final(w).parents.spec_get(x) == old(w).parents.spec_get(x),
            forall|x: int| #[trigger] final(w).locals.spec_get(x) == old(w).locals.spec_get(x),
            final(w).prev_parents == old(w).prev_parents,
            final(w).children == old(w).children,
            final(w).globals == old(w).globals,
            d.entries_view() == builder.entries_view(),
    {
        let DispatcherBuilder { entries } = builder;
        let mut hierarchy = HierarchySystem::new();
        hierarchy.setup(w);
        let mut transform = TransformSystem::new();
        transform.setup(w);
        let d = Dispatcher { entries, hierarchy, transform };
        proof {
            assert(d.entries_view() =~= builder.entries_view());
        }
        d
    }

    /// One tick: run the registered systems in registration order, with a
    /// barrier after each, so that everything the hierarchy maintenance
    /// stages is visible to the transform propagation that depends on it.
    pub fn dispatch(&mut self, w: &mut World)
        requires
            old(w).wf(),
            old(w).lazy@ == Seq::<LazyOp>::empty(),
            old(self).wired(*old(w)),
        ensures
            final(w).wf(),
            final(w).lazy@ == Seq::<LazyOp>::empty(),
            *final(self) == *old(self),
            ticks_spec(*old(self), old(self).entries_view(), *old(w), *final(w)),
            final(self).wired(*final(w)),
            final(w).entity_count == old(w).entity_count,
            forall|x: int| #[trigger] final(w).parents.spec_get(x) == old(w).parents.spec_get(x),
            forall|x: int| #[trigger] final(w).locals.spec_get(x) == old(w).locals.spec_get(x),
    {
        let mut k: usize = 0;
        while k < self.entries.len()
            invariant
                0 <= k <= self.entries@.len(),
                w.wf(),
                w.lazy@ == Seq::<LazyOp>::empty(),
                self.wired(*w),
                *self == *old(self),
                ticks_spec(*old(self), old(self).entries_view().take(k as int), *old(w), *w),
                w.entity_count == old(w).entity_count,
                forall|x: int| #[trigger] w.parents.spec_get(x) == old(w).parents.spec_get(x),
                forall|x: int| #[trigger] w.locals.spec_get(x) == old(w).locals.spec_get(x),
            decreases self.entries@.len() - k,
        {
            let ghost w1 = *w;
            let kind = self.entries[k].0;
            match kind {
                SystemKind::HierarchyMaintenance => {
                    self.hierarchy.run(w);
                    let ghost wmid = *w;
                    w.apply_lazy();
                    proof {
                        assert(maintenance_spec(w1, wmid, old(self).hierarchy.reader_id.unwrap()));
                        assert(World::barrier_spec(wmid, *w));
                        assert(step_spec(*old(self), kind, w1, *w));
                    }
                },
                SystemKind::TransformPropagation => {
                    self.transform.run(w);
                    let ghost wmid = *w;
                    w.apply_lazy();
                    proof {
                        assert(propagation_spec(w1, wmid, old(self).transform.reader_id.unwrap()));
                        assert(World::barrier_spec(wmid, *w));
                        assert(step_spec(*old(self), kind, w1, *w));
                    }
                },
            }
            proof {
                let ev = old(self).entries_view();
                assert(ev[k as int].0 == kind);
                assert(ev.take(k + 1 as int).drop_last() =~= ev.take(k as int));
                assert(ev.take(k + 1 as int).last() == ev[k as int]);
                assert(ticks_spec(*old(self), ev.take(k + 1 as int).drop_last(), *old(w), w1));
                assert(step_spec(*old(self), ev.take(k + 1 as int).last().0, w1, *w));
                assert(ticks_spec(*old(self), ev.take(k + 1 as int), *old(w), *w));
            }
            k = k + 1;
        }
        proof {
            assert(old(self).entries_view().take(old(self).entries_view().len() as int)
                =~= old(self).entries_view());
        }
    }
}

} // verus!
