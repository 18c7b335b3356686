use abyssal::context::{add_components, get_component, get_component_mut, spawn, Context};
use abyssal::entity::EntityId;
use abyssal::mask::{GLOBAL_TRANSFORM, LOCAL_TRANSFORM, PARENT};
use abyssal::transform::{
    query_global_transform, update_global_transforms_system, GlobalTransform, LocalTransform,
};
use abyssal::tree::Parent;
use nalgebra_glm::{Mat4, Quat, Vec3};

fn link(context: &mut Context, child: EntityId, parent: EntityId) {
    add_components(context, child, PARENT);
    get_component_mut::<Parent>(context, child).unwrap().0 = parent;
}

fn place(context: &mut Context, entity: EntityId, local: LocalTransform) {
    add_components(context, entity, LOCAL_TRANSFORM | GLOBAL_TRANSFORM);
    *get_component_mut::<LocalTransform>(context, entity).unwrap() = local;
}

fn global(context: &Context, entity: EntityId) -> Mat4 {
    get_component::<GlobalTransform>(context, entity).unwrap().0
}

fn turned(axis: Vec3, angle: f32) -> Quat {
    nalgebra_glm::quat_angle_axis(angle, &axis)
}

fn sample(seed: f32) -> LocalTransform {
    LocalTransform {
        translation: nalgebra_glm::vec3(seed, 2.0 * seed - 1.0, -0.5 * seed),
        rotation: turned(nalgebra_glm::vec3(0.3, 1.0, -0.2).normalize(), 0.7 * seed),
        scale: nalgebra_glm::vec3(1.0 + seed, 0.5, 2.0),
    }
}

fn expected_matrix(local: &LocalTransform) -> Mat4 {
    nalgebra_glm::translation(&local.translation)
        * nalgebra_glm::quat_to_mat4(&local.rotation.normalize())
        * nalgebra_glm::scaling(&local.scale)
}

#[test]
fn default_local_transform_is_the_identity_placement() {
    let local = LocalTransform::default();
    assert_eq!(local.translation, Vec3::new(0.0, 0.0, 0.0));
    assert_eq!(local.rotation, Quat::identity());
    assert_eq!(local.scale, Vec3::new(1.0, 1.0, 1.0));
    assert_eq!(local.as_matrix(), Mat4::identity());
}

#[test]
fn default_global_transform_is_zero() {
    assert_eq!(GlobalTransform::default().0, Mat4::zeros());
    assert_eq!(GlobalTransform::default(), GlobalTransform(Mat4::default()));
}

#[test]
fn as_matrix_is_translation_rotation_scale() {
    for seed in [0.25f32, 1.0, 3.5] {
        let local = sample(seed);
        assert_eq!(local.as_matrix(), expected_matrix(&local));
    }
}

#[test]
fn as_matrix_of_a_pure_translation() {
    let local = LocalTransform {
        translation: nalgebra_glm::vec3(4.0, -5.0, 6.0),
        ..LocalTransform::default()
    };
    let m = local.as_matrix();
    assert_eq!(m.column(3).xyz(), nalgebra_glm::vec3(4.0, -5.0, 6.0));
    assert_eq!(m[(0, 0)], 1.0);
    assert_eq!(m[(1, 1)], 1.0);
    assert_eq!(m[(2, 2)], 1.0);
    assert_eq!(m[(3, 3)], 1.0);
    assert_eq!(m[(0, 1)], 0.0);
}

#[test]
fn as_matrix_of_a_pure_scale() {
    let local =
        LocalTransform { scale: nalgebra_glm::vec3(2.0, 3.0, 4.0), ..LocalTransform::default() };
    let m = local.as_matrix();
    assert_eq!(m[(0, 0)], 2.0);
    assert_eq!(m[(1, 1)], 3.0);
    assert_eq!(m[(2, 2)], 4.0);
    assert_eq!(m[(3, 3)], 1.0);
}

#[test]
fn as_matrix_normalises_the_rotation() {
    let unit = turned(nalgebra_glm::vec3(0.0, 1.0, 0.0), 1.1);
    let long = Quat::new(unit.w * 3.0, unit.i * 3.0, unit.j * 3.0, unit.k * 3.0);
    let a = LocalTransform { rotation: long, ..LocalTransform::default() };
    let expected = nalgebra_glm::translation(&a.translation)
        * nalgebra_glm::quat_to_mat4(&long.normalize())
        * nalgebra_glm::scaling(&a.scale);
    assert_eq!(a.as_matrix(), expected);
    assert_ne!(a.as_matrix(), nalgebra_glm::quat_to_mat4(&long));
}

#[test]
fn axis_vectors_of_the_identity() {
    let local = LocalTransform::default();
    assert_eq!(local.right_vector(), nalgebra_glm::vec3(1.0, 0.0, 0.0));
    assert_eq!(local.up_vector(), nalgebra_glm::vec3(0.0, 1.0, 0.0));
    assert_eq!(local.forward_vector(), nalgebra_glm::vec3(0.0, 0.0, -1.0));
}

#[test]
fn axis_vectors_are_matrix_columns() {
    let local = sample(1.5);
    let m = local.as_matrix();
    assert_eq!(local.right_vector(), nalgebra_glm::vec3(m[(0, 0)], m[(1, 0)], m[(2, 0)]));
    assert_eq!(local.up_vector(), nalgebra_glm::vec3(m[(0, 1)], m[(1, 1)], m[(2, 1)]));
    assert_eq!(local.forward_vector(), nalgebra_glm::vec3(-m[(0, 2)], -m[(1, 2)], -m[(2, 2)]));
    let global = GlobalTransform(m);
    assert_eq!(global.right_vector(), local.right_vector());
    assert_eq!(global.up_vector(), local.up_vector());
    assert_eq!(global.forward_vector(), local.forward_vector());
}

#[test]
fn entity_without_local_transform_has_the_identity() {
    let mut context = Context::new();
    let a = spawn(&mut context);
    assert_eq!(query_global_transform(&context, a), Mat4::identity());
    let stranger = EntityId { index: 12, generation: 1 };
    assert_eq!(query_global_transform(&context, stranger), Mat4::identity());
}

#[test]
fn root_has_its_local_matrix() {
    let mut context = Context::new();
    let a = spawn(&mut context);
    let local = sample(2.0);
    place(&mut context, a, local);
    assert_eq!(query_global_transform(&context, a), expected_matrix(&local));
}

#[test]
fn three_level_chain_composes_from_the_root_down() {
    let mut context = Context::new();
    let root = spawn(&mut context);
    let child = spawn(&mut context);
    let grandchild = spawn(&mut context);
    let (l0, l1, l2) = (sample(0.5), sample(1.25), sample(3.0));
    place(&mut context, root, l0);
    place(&mut context, child, l1);
    place(&mut context, grandchild, l2);
    link(&mut context, child, root);
    link(&mut context, grandchild, child);
    update_global_transforms_system(&mut context);
    let (m0, m1, m2) = (expected_matrix(&l0), expected_matrix(&l1), expected_matrix(&l2));
    assert_eq!(global(&context, root), m0);
    assert_eq!(global(&context, child), m0 * m1);
    assert_eq!(global(&context, grandchild), (m0 * m1) * m2);
    assert_ne!(global(&context, grandchild), (m2 * m1) * m0);
    assert_ne!(global(&context, grandchild), m2);
}

#[test]
fn translations_add_up_along_the_chain() {
    let mut context = Context::new();
    let e0 = spawn(&mut context);
    let e1 = spawn(&mut context);
    let e2 = spawn(&mut context);
    for e in [e0, e1, e2] {
        add_components(&mut context, e, LOCAL_TRANSFORM | GLOBAL_TRANSFORM);
    }
    link(&mut context, e2, e1);
    link(&mut context, e1, e0);
    get_component_mut::<LocalTransform>(&mut context, e0).unwrap().translation =
        nalgebra_glm::vec3(1.0, 0.0, 0.0);
    get_component_mut::<LocalTransform>(&mut context, e1).unwrap().translation =
        nalgebra_glm::vec3(0.0, 1.0, 0.0);
    get_component_mut::<LocalTransform>(&mut context, e2).unwrap().translation =
        nalgebra_glm::vec3(0.0, 0.0, 1.0);
    update_global_transforms_system(&mut context);
    assert_eq!(global(&context, e2).column(3).xyz(), nalgebra_glm::vec3(1.0, 1.0, 1.0));
    assert_eq!(global(&context, e1).column(3).xyz(), nalgebra_glm::vec3(1.0, 1.0, 0.0));
    assert_eq!(global(&context, e0).column(3).xyz(), nalgebra_glm::vec3(1.0, 0.0, 0.0));
}

#[test]
fn parent_without_local_transform_contributes_the_identity() {
    let mut context = Context::new();
    let top = spawn(&mut context);
    let middle = spawn(&mut context);
    let leaf = spawn(&mut context);
    let (l0, l2) = (sample(0.75), sample(2.5));
    place(&mut context, top, l0);
    place(&mut context, leaf, l2);
    link(&mut context, middle, top);
    link(&mut context, leaf, middle);
    update_global_transforms_system(&mut context);
    assert_eq!(global(&context, leaf), expected_matrix(&l0) * expected_matrix(&l2));
    assert_ne!(global(&context, leaf), expected_matrix(&l2));
    assert_eq!(query_global_transform(&context, middle), expected_matrix(&l0));
    assert_eq!(global(&context, top), expected_matrix(&l0));
}

#[test]
fn translation_of_the_root_reaches_a_leaf_under_a_plain_entity() {
    let mut context = Context::new();
    let root = spawn(&mut context);
    let middle = spawn(&mut context);
    let leaf = spawn(&mut context);
    add_components(&mut context, root, LOCAL_TRANSFORM | GLOBAL_TRANSFORM);
    add_components(&mut context, leaf, LOCAL_TRANSFORM | GLOBAL_TRANSFORM);
    link(&mut context, middle, root);
    link(&mut context, leaf, middle);
    get_component_mut::<LocalTransform>(&mut context, root).unwrap().translation =
        nalgebra_glm::vec3(1.0, 0.0, 0.0);
    get_component_mut::<LocalTransform>(&mut context, leaf).unwrap().translation =
        nalgebra_glm::vec3(0.0, 0.0, 2.0);
    update_global_transforms_system(&mut context);
    assert_eq!(global(&context, leaf).column(3).xyz(), nalgebra_glm::vec3(1.0, 0.0, 2.0));
}

#[test]
fn several_plain_entities_in_a_row_are_passed_through() {
    let mut context = Context::new();
    let root = spawn(&mut context);
    let first = spawn(&mut context);
    let second = spawn(&mut context);
    let leaf = spawn(&mut context);
    let (l0, l3) = (sample(1.5), sample(0.5));
    place(&mut context, root, l0);
    place(&mut context, leaf, l3);
    link(&mut context, first, root);
    link(&mut context, second, first);
    link(&mut context, leaf, second);
    assert_eq!(
        query_global_transform(&context, leaf),
        expected_matrix(&l0) * expected_matrix(&l3)
    );
    assert_eq!(query_global_transform(&context, second), expected_matrix(&l0));
}

#[test]
fn plain_entity_without_parent_has_the_identity() {
    let mut context = Context::new();
    let top = spawn(&mut context);
    let leaf = spawn(&mut context);
    let local = sample(2.0);
    place(&mut context, leaf, local);
    link(&mut context, leaf, top);
    assert_eq!(query_global_transform(&context, top), Mat4::identity());
    assert_eq!(query_global_transform(&context, leaf), expected_matrix(&local));
}

#[test]
fn a_dead_parent_ends_the_chain_of_transforms() {
    let mut context = Context::new();
    let top = spawn(&mut context);
    let middle = spawn(&mut context);
    let leaf = spawn(&mut context);
    let (l0, l1, l2) = (sample(0.5), sample(1.0), sample(2.0));
    place(&mut context, top, l0);
    place(&mut context, middle, l1);
    place(&mut context, leaf, l2);
    link(&mut context, middle, top);
    link(&mut context, leaf, middle);
    abyssal::context::destroy(&mut context, middle);
    assert_eq!(
        query_global_transform(&context, leaf),
        Mat4::identity() * expected_matrix(&l2)
    );
}

#[test]
fn a_cycle_of_plain_entities_ends() {
    let mut context = Context::new();
    let a = spawn(&mut context);
    let b = spawn(&mut context);
    link(&mut context, a, b);
    link(&mut context, b, a);
    assert_eq!(query_global_transform(&context, a), Mat4::identity());
}

#[test]
fn propagation_only_writes_global_transforms_of_entities_with_both() {
    let mut context = Context::new();
    let both = spawn(&mut context);
    let only_local = spawn(&mut context);
    let only_global = spawn(&mut context);
    let local = sample(1.0);
    place(&mut context, both, local);
    add_components(&mut context, only_local, LOCAL_TRANSFORM);
    *get_component_mut::<LocalTransform>(&mut context, only_local).unwrap() = sample(2.0);
    add_components(&mut context, only_global, GLOBAL_TRANSFORM);
    let marker = Mat4::from_element(7.0);
    get_component_mut::<GlobalTransform>(&mut context, only_global).unwrap().0 = marker;
    update_global_transforms_system(&mut context);
    assert_eq!(global(&context, both), expected_matrix(&local));
    assert!(get_component::<GlobalTransform>(&context, only_local).is_none());
    assert_eq!(global(&context, only_global), marker);
    assert_eq!(*get_component::<LocalTransform>(&context, both).unwrap(), local);
    assert_eq!(*get_component::<LocalTransform>(&context, only_local).unwrap(), sample(2.0));
}

#[test]
fn propagation_is_recomputed_from_scratch() {
    let mut context = Context::new();
    let root = spawn(&mut context);
    let child = spawn(&mut context);
    place(&mut context, root, sample(1.0));
    place(&mut context, child, sample(2.0));
    link(&mut context, child, root);
    update_global_transforms_system(&mut context);
    let first = global(&context, child);
    update_global_transforms_system(&mut context);
    assert_eq!(global(&context, child), first);
    *get_component_mut::<LocalTransform>(&mut context, root).unwrap() = sample(4.0);
    update_global_transforms_system(&mut context);
    assert_eq!(
        global(&context, child),
        expected_matrix(&sample(4.0)) * expected_matrix(&sample(2.0))
    );
}

#[test]
fn propagation_ends_on_a_cycle() {
    let mut context = Context::new();
    let a = spawn(&mut context);
    let b = spawn(&mut context);
    place(&mut context, a, sample(1.0));
    place(&mut context, b, sample(2.0));
    link(&mut context, a, b);
    link(&mut context, b, a);
    update_global_transforms_system(&mut context);
    let (ma, mb) = (expected_matrix(&sample(1.0)), expected_matrix(&sample(2.0)));
    assert_eq!(global(&context, a), (Mat4::identity() * mb) * ma);
    assert_eq!(global(&context, b), (Mat4::identity() * ma) * mb);
}

#[test]
fn long_chain_of_translations() {
    let mut context = Context::new();
    let mut previous: Option<EntityId> = None;
    let mut last = EntityId::default();
    for _ in 0..64 {
        let e = spawn(&mut context);
        add_components(&mut context, e, LOCAL_TRANSFORM | GLOBAL_TRANSFORM);
        get_component_mut::<LocalTransform>(&mut context, e).unwrap().translation =
            nalgebra_glm::vec3(1.0, 2.0, -1.0);
        if let Some(p) = previous {
            link(&mut context, e, p);
        }
        previous = Some(e);
        last = e;
    }
    update_global_transforms_system(&mut context);
    assert_eq!(global(&context, last).column(3).xyz(), nalgebra_glm::vec3(64.0, 128.0, -64.0));
}
