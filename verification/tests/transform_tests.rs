use tg_render_engine::engine::App;
use tg_render_engine::engine::DefautlPlugins;
use tg_render_engine::entity::Entity;
use tg_render_engine::matrix::Matrix4;
use tg_render_engine::matrix::UNIT_BITS;
use tg_render_engine::storage::EventKind;

fn mat(vals: [f32; 16]) -> Matrix4 {
    let mut bits = [0u32; 16];
    for (i, v) in vals.iter().enumerate() {
        bits[i] = v.to_bits();
    }
    Matrix4::from_bits(bits)
}

fn glm(m: &Matrix4) -> nalgebra_glm::Mat4 {
    nalgebra_glm::make_mat4(bytemuck::cast_slice(&m.bits))
}

fn bits_of(m: &nalgebra_glm::Mat4) -> [u32; 16] {
    let mut bits = [0u32; 16];
    bits.copy_from_slice(bytemuck::cast_slice(m.as_slice()));
    bits
}

fn translation(x: f32, y: f32, z: f32) -> Matrix4 {
    mat([
        1.0, 0.0, 0.0, 0.0, //
        0.0, 1.0, 0.0, 0.0, //
        0.0, 0.0, 1.0, 0.0, //
        x, y, z, 1.0,
    ])
}

fn scale(s: f32) -> Matrix4 {
    mat([
        s, 0.0, 0.0, 0.0, //
        0.0, s, 0.0, 0.0, //
        0.0, 0.0, s, 0.0, //
        0.0, 0.0, 0.0, 1.0,
    ])
}

fn engine() -> App {
    let mut app = App::new();
    app.add_plugin(DefautlPlugins);
    app
}

/// Spawn an entity carrying local and (seeded) global transforms.
fn spawn_with_transform(app: &mut App, local: Matrix4) -> Entity {
    let e = app.world.create_entity();
    app.world.set_local_matrix(e, local);
    app.world.seed_global_matrix(e, local);
    e
}

#[test]
fn identity_matrix_bit_pattern() {
    let m = Matrix4::identity();
    assert_eq!(m.bits[0], UNIT_BITS);
    assert_eq!(m.bits[5], UNIT_BITS);
    assert_eq!(m.bits[10], UNIT_BITS);
    assert_eq!(m.bits[15], UNIT_BITS);
    assert_eq!(UNIT_BITS, 1.0f32.to_bits());
    assert_eq!(m.bits[1], 0);
}

#[test]
fn matrix_product_matches_the_backend() {
    let a = translation(1.0, 2.0, 3.0);
    let b = scale(2.0);
    let prod = tg_render_engine::matrix::mat4_mul(&a, &b);
    let expected = bits_of(&(glm(&a) * glm(&b)));
    assert_eq!(prod.bits, expected);
}

#[test]
fn global_matrix_root_identity() {
    let mut app = engine();
    let lr = translation(5.0, 0.0, -1.0);
    let root = spawn_with_transform(&mut app, lr);
    app.update();
    // mark the root dirty and tick again: its own global stays the seed
    app.world.set_local_matrix(root, lr);
    app.update();
    let g = app.world.global_matrix_of(root).unwrap();
    assert_eq!(g.bits, lr.bits);
}

#[test]
fn global_matrix_chain_composition() {
    let mut app = engine();
    let lr = translation(1.0, 0.0, 0.0);
    let la = scale(2.0);
    let lb = translation(0.0, 3.0, 0.0);
    let root = spawn_with_transform(&mut app, lr);
    let a = spawn_with_transform(&mut app, la);
    let b = spawn_with_transform(&mut app, lb);
    app.world.insert_parent(a, root);
    app.world.insert_parent(b, a);
    // first tick reconciles the child lists; nothing is dirty yet
    app.update();
    // marking the root's local transform dirty rewrites the chain
    app.world.set_local_matrix(root, lr);
    app.update();

    let expected_a = glm(&lr) * glm(&la);
    let expected_b = expected_a * glm(&lb);
    assert_eq!(app.world.global_matrix_of(a).unwrap().bits, bits_of(&expected_a));
    assert_eq!(app.world.global_matrix_of(b).unwrap().bits, bits_of(&expected_b));

    let diff = (glm(&lr) * glm(&la) * glm(&lb))
        - glm(&app.world.global_matrix_of(b).unwrap());
    assert!(diff.iter().all(|d| d.abs() < 1e-5));
}

#[test]
fn unchanged_subtree_is_not_rewritten() {
    let mut app = engine();
    let l1 = translation(1.0, 1.0, 1.0);
    let l2 = translation(9.0, 9.0, 9.0);
    let r1 = spawn_with_transform(&mut app, l1);
    let a1 = spawn_with_transform(&mut app, scale(3.0));
    let r2 = spawn_with_transform(&mut app, l2);
    let b2 = spawn_with_transform(&mut app, scale(4.0));
    app.world.insert_parent(a1, r1);
    app.world.insert_parent(b2, r2);
    app.update();

    let b2_before = app.world.global_matrix_of(b2).unwrap().bits;
    // an independent cursor on the global storage across the next tick
    let probe = app.world.globals.register_reader();
    app.world.set_local_matrix(r1, l1);
    app.update();

    // the other root's subtree is untouched: same value, zero events
    assert_eq!(app.world.global_matrix_of(b2).unwrap().bits, b2_before);
    let evs = app.world.globals.read(probe);
    assert!(evs.iter().all(|ev| ev.entity != b2.index && ev.entity != r2.index));
    // and the dirty root's child was in fact rewritten
    assert!(evs
        .iter()
        .any(|ev| ev.entity == a1.index && matches!(ev.kind, EventKind::Modified)));
}

#[test]
fn dirty_non_root_does_not_propagate() {
    let mut app = engine();
    let root = spawn_with_transform(&mut app, translation(1.0, 0.0, 0.0));
    let child = spawn_with_transform(&mut app, scale(2.0));
    app.world.insert_parent(child, root);
    app.update();

    let before = app.world.global_matrix_of(child).unwrap().bits;
    // only the child is marked dirty: walks start at dirty roots alone
    app.world.set_local_matrix(child, scale(5.0));
    app.update();
    assert_eq!(app.world.global_matrix_of(child).unwrap().bits, before);

    // once the root is dirtied too, the fresh local value is picked up
    app.world.set_local_matrix(root, translation(1.0, 0.0, 0.0));
    app.update();
    let expected = bits_of(&(glm(&translation(1.0, 0.0, 0.0)) * glm(&scale(5.0))));
    assert_eq!(app.world.global_matrix_of(child).unwrap().bits, expected);
}
