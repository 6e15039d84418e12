//! The application shell: a world, a system schedule, and the plugin
//! hook that lets independently-authored units register what they need.
//!
//! Windowing, GPU and logging plugins live outside this library; the
//! plugins here register the scene-graph systems, with the transform
//! propagation declared to depend on the hierarchy maintenance.

use vstd::prelude::*;

use crate::schedule::Dispatcher;
use crate::schedule::SystemId;
use crate::schedule::SystemKind;
use crate::schedule::deps_respected;
use crate::schedule::ticks_spec;
use crate::world::LazyOp;
use crate::world::World;

verus! {

/// Counter resource for entities carrying transforms.
#[derive(Clone, Copy, PartialEq, Eq, Structural, Debug)]
pub struct TransformCount(pub u32);

/// The application: a world and the schedule that ticks it.
pub struct App {
    pub world: World,
    pub dispatcher: Dispatcher,
    pub hierarchy_system_id: Option<SystemId>,
}

impl App {
    /// Validity: the world is sound with an empty queue, the dispatcher
    /// is wired to it with its dependencies in order, and a remembered
    /// registration points into the schedule.
    pub open spec fn wf(self) -> bool {
        &&& self.world.wf()
        &&& self.world.lazy@ == Seq::<LazyOp>::empty()
        &&& self.dispatcher.wired(self.world)
        &&& deps_respected(self.dispatcher.entries_view())
        &&& (self.hierarchy_system_id matches Some(id) ==> id.0
            < self.dispatcher.entries_view().len())
    }

    /// An application over an empty world: no entities, no components,
    /// nothing registered in the schedule; the systems' reader cursors
    /// exist from here on, so every later change event reaches them.
    pub fn new() -> (app: App)
        ensures
            app.wf(),
            app.world.entity_count == 0,
            app.system_count() == 0,
            app.hierarchy_system_id is None,
            app.world.lazy@ == Seq::<crate::world::LazyOp>::empty(),
            forall|e: int| !(#[trigger] app.world.parents.has(e)),
            forall|e: int| !(#[trigger] app.world.prev_parents.has(e)),
            forall|e: int| !(#[trigger] app.world.children.has(e)),
            forall|e: int| !(#[trigger] app.world.locals.has(e)),
            forall|e: int| !(#[trigger] app.world.globals.has(e)),
    {
        let mut world = World::new();
        let ghost vw = world;
        let dispatcher = Dispatcher::new(&mut world);
        proof {
            assert forall|e: int| !(#[trigger] world.parents.has(e)) by {
                assert(!vw.parents.has(e));
                assert(world.parents.spec_get(e) == vw.parents.spec_get(e));
            }
            assert forall|e: int| !(#[trigger] world.locals.has(e)) by {
                assert(!vw.locals.has(e));
                assert(world.locals.spec_get(e) == vw.locals.spec_get(e));
            }
            assert forall|e: int| !(#[trigger] world.prev_parents.has(e)) by {
                assert(!vw.prev_parents.has(e));
            }
            assert forall|e: int| !(#[trigger] world.children.has(e)) by {
                assert(!vw.children.has(e));
            }
            assert forall|e: int| !(#[trigger] world.globals.has(e)) by {
                assert(!vw.globals.has(e));
            }
        }
        App { world, dispatcher, hierarchy_system_id: None }
    }

    /// How many systems are registered so far.
    pub open spec fn system_count(self) -> int {
        self.dispatcher.entries_view().len() as int
    }

    /// Register a system; its dependencies must already be registered.
    pub fn add_system(&mut self, kind: SystemKind, name: &str, dependencies: &[SystemId]) -> (id:
        SystemId)
        requires
            old(self).wf(),
            forall|d: int|
                0 <= d < dependencies@.len() ==> (#[trigger] dependencies@[d]).0
                    < old(self).system_count(),
        ensures
            final(self).wf(),
            id.0 == old(self).system_count(),
            final(self).dispatcher.entries_view() == old(self).dispatcher.entries_view().push(
                (kind, dependencies@.map_values(|sid: SystemId| sid.0)),
            ),
            final(self).dispatcher.hierarchy == old(self).dispatcher.hierarchy,
            final(self).dispatcher.transform == old(self).dispatcher.transform,
            final(self).world == old(self).world,
            final(self).hierarchy_system_id == old(self).hierarchy_system_id,
    {
        self.dispatcher.add(kind, name, dependencies)
    }

    /// Let a plugin register what it needs.
    pub fn add_plugin<T: Plugin>(&mut self, plugin: T)
        requires
            old(self).wf(),
        ensures
            final(self).wf(),
    {
        plugin.build(self);
    }

    /// One frame tick: every registered system runs over the world, in
    /// dependency order with a barrier after each, as `ticks_spec` states.
    pub fn update(&mut self)
        requires
            old(self).wf(),
        ensures
            final(self).wf(),
            final(self).dispatcher == old(self).dispatcher,
            final(self).hierarchy_system_id == old(self).hierarchy_system_id,
            ticks_spec(
                old(self).dispatcher,
                old(self).dispatcher.entries_view(),
                old(self).world,
                final(self).world,
            ),
            final(self).world.entity_count == old(self).world.entity_count,
    {
        self.dispatcher.dispatch(&mut self.world);
    }

    /// Run the application: without an outside runner this is a single
    /// tick, as with the default run-once runner.
    pub fn run(&mut self)
        requires
            old(self).wf(),
        ensures
            final(self).wf(),
            final(self).dispatcher == old(self).dispatcher,
            ticks_spec(
                old(self).dispatcher,
                old(self).dispatcher.entries_view(),
                old(self).world,
                final(self).world,
            ),
    {
        self.update();
    }
}

/// A unit of setup logic: registers components, resources or systems on
/// the application.
pub trait Plugin {
    fn build(&self, app: &mut App)
        requires
            old(app).wf(),
        ensures
            final(app).wf(),
    ;
}

/// Registers the hierarchy maintenance system.
pub struct HierarchyPlugin;

impl Plugin for HierarchyPlugin {
    fn build(&self, app: &mut App)
        ensures
            final(app).system_count() == old(app).system_count() + 1,
            final(app).dispatcher.entries_view().last() == (
                SystemKind::HierarchyMaintenance,
                Seq::<usize>::empty(),
            ),
            forall|i: int|
                0 <= i < old(app).system_count() ==> #[trigger] final(app).dispatcher
                    .entries_view()[i] == old(app).dispatcher.entries_view()[i],
            final(app).hierarchy_system_id matches Some(id) && id.0 == old(app).system_count(),
    {
        let id = app.add_system(SystemKind::HierarchyMaintenance, "HierarchySystem", &[]);
        app.hierarchy_system_id = Some(id);
        proof {
            assert(Seq::<SystemId>::empty().map_values(|sid: SystemId| sid.0)
                =~= Seq::<usize>::empty());
        }
    }
}

/// Registers the transform propagation system, depending on the
/// hierarchy maintenance where that is registered.
pub struct TransformPlugin;

impl Plugin for TransformPlugin {
    fn build(&self, app: &mut App)
        ensures
            final(app).system_count() == old(app).system_count() + 1,
            final(app).dispatcher.entries_view().last().0 == SystemKind::TransformPropagation,
            old(app).hierarchy_system_id matches Some(id)
                ==> final(app).dispatcher.entries_view().last().1 == seq![id.0],
            old(app).hierarchy_system_id is None
                ==> final(app).dispatcher.entries_view().last().1 == Seq::<usize>::empty(),
            forall|i: int|
                0 <= i < old(app).system_count() ==> #[trigger] final(app).dispatcher
                    .entries_view()[i] == old(app).dispatcher.entries_view()[i],
    {
        match app.hierarchy_system_id {
            Some(id) => {
                let deps = [id];
                app.add_system(SystemKind::TransformPropagation, "TransformSystem", &deps);
                proof {
                    assert(deps@.map_values(|sid: SystemId| sid.0) =~= seq![id.0]);
                }
            },
            None => {
                app.add_system(SystemKind::TransformPropagation, "TransformSystem", &[]);
                proof {
                    assert(Seq::<SystemId>::empty().map_values(|sid: SystemId| sid.0)
                        =~= Seq::<usize>::empty());
                }
            },
        }
    }
}

/// The default plugin set: the scene-graph systems, in dependency order.
/// The windowing, render and log plugins of the full engine live outside
/// this library and are added by the embedding application.
pub struct DefautlPlugins;

impl Plugin for DefautlPlugins {
    fn build(&self, app: &mut App)
        ensures
            final(app).system_count() == old(app).system_count() + 2,
            final(app).dispatcher.entries_view()[final(app).system_count() - 2].0
                == SystemKind::HierarchyMaintenance,
            final(app).dispatcher.entries_view().last().0 == SystemKind::TransformPropagation,
            final(app).dispatcher.entries_view().last().1 == seq![
                old(app).system_count() as usize,
            ],
            forall|i: int|
                0 <= i < old(app).system_count() ==> #[trigger] final(app).dispatcher
                    .entries_view()[i] == old(app).dispatcher.entries_view()[i],
    {
        HierarchyPlugin.build(app);
        TransformPlugin.build(app);
    }
}

} // verus!
