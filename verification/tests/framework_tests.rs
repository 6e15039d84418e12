use tg_render_engine::children::Children;
use tg_render_engine::engine::App;
use tg_render_engine::engine::DefautlPlugins;
use tg_render_engine::engine::HierarchyPlugin;
use tg_render_engine::engine::TransformPlugin;
use tg_render_engine::entity::Entity;
use tg_render_engine::matrix::Matrix4;
use tg_render_engine::transform::GlobalMatrix;
use tg_render_engine::transform::LocalMatrix;
use tg_render_engine::render::add_to_batch;
use tg_render_engine::render::BatchRange;
use tg_render_engine::render::BatchResult;
use tg_render_engine::render::ViewTarget;
use tg_render_engine::render::merge_batch_ranges;
use tg_render_engine::schedule::DispatcherBuilder;
use tg_render_engine::schedule::SystemKind;
use tg_render_engine::window::AppExit;
use tg_render_engine::window::ExitOnWindowCloseSystem;
use tg_render_engine::window::ExtractWindowSystem;
use tg_render_engine::window::ExtractedWindow;
use tg_render_engine::window::get_physical_size;
use tg_render_engine::window::PrepareWindowsSystem;
use tg_render_engine::window::WindowCloseRequested;
use tg_render_engine::window::WinitPlugin;

#[test]
fn children_list_operations() {
    let e1 = Entity::new(1);
    let e2 = Entity::new(2);
    let mut c = Children::with(&[e1, e2]);
    assert_eq!(c.len(), 2);
    assert_eq!(c.get(0), e1);
    assert_eq!(c.get(1), e2);
    assert!(c.contains(e1));
    assert!(!c.contains(Entity::new(3)));
    c.swap(0, 1);
    assert_eq!(c.get(0), e2);
    assert_eq!(c.get(1), e1);
}

#[test]
fn batch_merge_forward_adjacent() {
    let (res, merged) = merge_batch_ranges(
        Some(BatchRange { start: 0, end: 4 }),
        Some(BatchRange { start: 4, end: 9 }),
        true,
    );
    assert_eq!(res, BatchResult::Success);
    assert_eq!(merged, Some(BatchRange { start: 0, end: 9 }));
}

#[test]
fn batch_merge_backward_adjacent() {
    let (res, merged) = merge_batch_ranges(
        Some(BatchRange { start: 4, end: 9 }),
        Some(BatchRange { start: 0, end: 4 }),
        true,
    );
    assert_eq!(res, BatchResult::Success);
    assert_eq!(merged, Some(BatchRange { start: 0, end: 9 }));
}

#[test]
fn batch_merge_rejects_gaps_and_strangers() {
    let a = Some(BatchRange { start: 0, end: 3 });
    let b = Some(BatchRange { start: 5, end: 9 });
    assert_eq!(merge_batch_ranges(a, b, true).0, BatchResult::IncompatibleItems);
    let c = Some(BatchRange { start: 3, end: 5 });
    assert_eq!(merge_batch_ranges(a, c, false).0, BatchResult::IncompatibleItems);
    assert_eq!(merge_batch_ranges(None, c, true).0, BatchResult::IncompatibleItems);
}

#[test]
fn view_target_attachment_resolution() {
    let plain = ViewTarget { view: 10, sampled_target: None };
    assert_eq!(plain.get_color_attachment(), (10, None));
    let sampled = ViewTarget { view: 10, sampled_target: Some(11) };
    assert_eq!(sampled.get_color_attachment(), (11, Some(10)));
}

#[test]
fn close_request_raises_exit() {
    let mut sys = ExitOnWindowCloseSystem;
    let mut exits: Vec<AppExit> = Vec::new();
    sys.run(&vec![], &mut exits);
    assert!(exits.is_empty());
    sys.run(&vec![WindowCloseRequested { id: 0 }], &mut exits);
    assert_eq!(exits.len(), 1);
}

#[test]
fn winit_plugin_defaults() {
    let p = WinitPlugin::default();
    assert!(p.add_primary_window);
    assert!(p.exit_on_close);
}

#[test]
fn window_extraction_clamps_and_tracks_resizes() {
    let mut extracted: Vec<ExtractedWindow> = Vec::new();
    ExtractWindowSystem::extract_window(&mut extracted, 1, 0, 600);
    assert_eq!(extracted.len(), 1);
    assert_eq!(extracted[0].physical_width, 1);
    assert_eq!(extracted[0].physical_height, 600);
    assert!(!extracted[0].size_changed);

    ExtractWindowSystem::extract_window(&mut extracted, 1, 800, 600);
    assert_eq!(extracted.len(), 1);
    assert_eq!(extracted[0].physical_width, 800);
    assert!(extracted[0].size_changed);

    ExtractWindowSystem::extract_window(&mut extracted, 1, 800, 600);
    assert!(!extracted[0].size_changed);

    ExtractWindowSystem::extract_window(&mut extracted, 2, 100, 100);
    assert_eq!(extracted.len(), 2);

    assert_eq!(get_physical_size(&extracted, 1), Some((800, 600)));
    assert_eq!(get_physical_size(&extracted, 2), Some((100, 100)));
    assert_eq!(get_physical_size(&extracted, 3), None);
}

#[test]
fn surface_configuration_rule() {
    assert!(PrepareWindowsSystem::needs_configure(true, false));
    assert!(PrepareWindowsSystem::needs_configure(false, true));
    assert!(!PrepareWindowsSystem::needs_configure(false, false));
}

#[test]
fn registration_orders_dependencies() {
    let mut b = DispatcherBuilder::new();
    let h = b.add(SystemKind::HierarchyMaintenance, "HierarchySystem", &[]);
    let deps = [h];
    let t = b.add(SystemKind::TransformPropagation, "TransformSystem", &deps);
    assert_eq!(h.0, 0);
    assert_eq!(t.0, 1);
}

#[test]
fn default_plugins_register_both_systems() {
    let mut app = App::new();
    app.add_plugin(DefautlPlugins);
    app.update();
    app.update();
}

#[test]
fn plugins_can_be_added_one_by_one() {
    let mut app = App::new();
    app.add_plugin(HierarchyPlugin);
    app.add_plugin(TransformPlugin);
    let a = app.world.create_entity();
    let b = app.world.create_entity();
    app.world.insert_parent(a, b);
    app.run();
    assert_eq!(app.world.previous_parent_of(a), Some(b));
}

struct Sprite {
    entity: Entity,
    range: Option<BatchRange>,
}

impl tg_render_engine::render::PhaseItem for Sprite {
    fn sort_key(&self) -> u64 {
        0
    }
    fn draw_function(&self) -> tg_render_engine::render::DrawFunctionId {
        tg_render_engine::render::DrawFunctionId(0)
    }
}

impl tg_render_engine::render::EntityPhaseItem for Sprite {
    fn spec_entity(&self) -> Entity {
        self.entity
    }
    fn entity(&self) -> Entity {
        self.entity
    }
}

impl tg_render_engine::render::BatchedPhaseItem for Sprite {
    fn spec_batch_range(&self) -> Option<BatchRange> {
        self.range
    }
    fn batch_range(&self) -> Option<BatchRange> {
        self.range
    }
    fn set_batch_range(&mut self, range: Option<BatchRange>) {
        self.range = range;
    }
}

#[test]
fn items_batch_through_the_trait() {
    let mut a = Sprite { entity: Entity::new(4), range: Some(BatchRange { start: 0, end: 6 }) };
    let b = Sprite { entity: Entity::new(4), range: Some(BatchRange { start: 6, end: 9 }) };
    assert_eq!(add_to_batch(&mut a, &b), BatchResult::Success);
    assert_eq!(a.range, Some(BatchRange { start: 0, end: 9 }));

    let stranger = Sprite { entity: Entity::new(5), range: Some(BatchRange { start: 9, end: 12 }) };
    assert_eq!(add_to_batch(&mut a, &stranger), BatchResult::IncompatibleItems);
    assert_eq!(a.range, Some(BatchRange { start: 0, end: 9 }));
}

#[test]
fn new_entities_default_to_the_identity_transform() {
    let l = LocalMatrix::default();
    let g = GlobalMatrix::default();
    assert_eq!(l.0.bits, Matrix4::identity().bits);
    assert_eq!(g.0.bits, Matrix4::identity().bits);
}
