use abyssal::camera::{
    ensure_camera_transform_system, initial_camera_position, initialize_camera_transform,
    query_nth_camera, Camera,
    OrthographicCamera, PerspectiveCamera, Projection, FOV_DEGREES, NEAR_PLANE, QUARTER_TURN,
};
use abyssal::cli::{Command, Options};
use abyssal::context::{
    add_components, destroy, get_component, get_component_mut, mask_of, spawn, Context,
};
use abyssal::mask::{CAMERA, LINES, LOCAL_TRANSFORM, NAME, QUADS};
use abyssal::paint::{paint_entity, paint_line, paint_quad, Lines, Painting, Quads};
use abyssal::transform::LocalTransform;
use nalgebra_glm::{vec2, vec3, vec4};

#[test]
fn camera_defaults() {
    let camera = Camera::default();
    assert_eq!(camera.fov, FOV_DEGREES);
    assert_eq!(f32::from_bits(camera.fov), 45.0);
    match camera.projection {
        Projection::Perspective(p) => {
            assert_eq!(p.aspect_ratio, None);
            assert_eq!(p.z_far, None);
            assert_eq!(f32::from_bits(p.y_fov_rad), 90_f32.to_radians());
            assert_eq!(f32::from_bits(p.z_near), 0.01);
        }
        Projection::Orthographic(_) => panic!("a new camera is a perspective camera"),
    }
    assert_eq!(f32::from_bits(QUARTER_TURN), 90_f32.to_radians());
    assert_eq!(f32::from_bits(NEAR_PLANE), 0.01);
}

#[test]
fn projection_defaults() {
    let p = PerspectiveCamera::default();
    assert_eq!(p.y_fov_rad, QUARTER_TURN);
    assert_eq!(p.z_near, NEAR_PLANE);
    let o = OrthographicCamera::default();
    assert_eq!(f32::from_bits(o.x_mag), 0.0);
    assert_eq!(f32::from_bits(o.y_mag), 0.0);
    assert_eq!(f32::from_bits(o.z_far), 0.0);
    assert_eq!(f32::from_bits(o.z_near), 0.0);
    assert!(matches!(Projection::default(), Projection::Perspective(_)));
}

#[test]
fn nth_camera() {
    let mut context = Context::new();
    let plain = spawn(&mut context);
    let first = spawn(&mut context);
    let second = spawn(&mut context);
    add_components(&mut context, plain, NAME);
    add_components(&mut context, first, CAMERA);
    add_components(&mut context, second, CAMERA | NAME);
    assert_eq!(query_nth_camera(&context, 0), Some(first));
    assert_eq!(query_nth_camera(&context, 1), Some(second));
    assert_eq!(query_nth_camera(&context, 2), None);
    destroy(&mut context, first);
    assert_eq!(query_nth_camera(&context, 0), Some(second));
    assert_eq!(query_nth_camera(&context, 1), None);
}

#[test]
fn nth_camera_of_an_empty_world() {
    let context = Context::new();
    assert_eq!(query_nth_camera(&context, 0), None);
}

#[test]
fn initialize_camera_sets_translation_and_rotation_only() {
    let mut context = Context::new();
    let camera = spawn(&mut context);
    add_components(&mut context, camera, CAMERA | LOCAL_TRANSFORM);
    get_component_mut::<LocalTransform>(&mut context, camera).unwrap().scale = vec3(2.0, 2.0, 2.0);
    let rotation = nalgebra_glm::quat_angle_axis(0.5, &vec3(1.0, 0.0, 0.0));
    initialize_camera_transform(&mut context, camera, vec3(0.0, 4.0, 5.0), rotation);
    let local = *get_component::<LocalTransform>(&context, camera).unwrap();
    assert_eq!(local.translation, vec3(0.0, 4.0, 5.0));
    assert_eq!(local.rotation, rotation);
    assert_eq!(local.scale, vec3(2.0, 2.0, 2.0));
}

#[test]
fn initialize_camera_without_local_transform_does_nothing() {
    let mut context = Context::new();
    let camera = spawn(&mut context);
    add_components(&mut context, camera, CAMERA);
    initialize_camera_transform(
        &mut context,
        camera,
        vec3(0.0, 4.0, 5.0),
        nalgebra_glm::Quat::identity(),
    );
    assert_eq!(mask_of(&context, camera), CAMERA);
}

#[test]
fn cameras_without_local_transform_get_one() {
    let mut context = Context::new();
    let bare = spawn(&mut context);
    let placed = spawn(&mut context);
    let other = spawn(&mut context);
    add_components(&mut context, bare, CAMERA);
    add_components(&mut context, placed, CAMERA | LOCAL_TRANSFORM);
    add_components(&mut context, other, NAME);
    get_component_mut::<LocalTransform>(&mut context, placed).unwrap().translation =
        vec3(9.0, 9.0, 9.0);
    let rotation = nalgebra_glm::quat_angle_axis(-0.67, &vec3(1.0, 0.0, 0.0));
    ensure_camera_transform_system(&mut context, vec3(0.0, 4.0, 5.0), rotation);
    let local = *get_component::<LocalTransform>(&context, bare).unwrap();
    assert_eq!(local.translation, vec3(0.0, 4.0, 5.0));
    assert_eq!(local.rotation, rotation);
    assert_eq!(local.scale, vec3(1.0, 1.0, 1.0));
    assert_eq!(mask_of(&context, bare), CAMERA | LOCAL_TRANSFORM);
    assert_eq!(
        get_component::<LocalTransform>(&context, placed).unwrap().translation,
        vec3(9.0, 9.0, 9.0)
    );
    assert_eq!(mask_of(&context, other), NAME);
    ensure_camera_transform_system(&mut context, vec3(1.0, 1.0, 1.0), rotation);
    assert_eq!(
        get_component::<LocalTransform>(&context, bare).unwrap().translation,
        vec3(0.0, 4.0, 5.0)
    );
}

#[test]
fn painting_collects_lines_and_quads_in_order() {
    let mut painting = Painting::default();
    assert!(painting.lines.is_empty());
    assert!(painting.quads.is_empty());
    paint_line(&mut painting, vec3(0.0, 0.0, 0.0), vec3(1.0, 0.0, 0.0), vec4(1.0, 0.0, 0.0, 1.0));
    paint_line(&mut painting, vec3(1.0, 0.0, 0.0), vec3(1.0, 1.0, 0.0), vec4(0.0, 1.0, 0.0, 1.0));
    paint_quad(&mut painting, vec3(0.5, 0.5, 0.0), vec2(2.0, 3.0), vec4(0.0, 0.0, 1.0, 1.0));
    assert_eq!(painting.lines.len(), 2);
    assert_eq!(painting.quads.len(), 1);
    assert_eq!(painting.lines[0].end, vec3(1.0, 0.0, 0.0));
    assert_eq!(painting.lines[1].start, vec3(1.0, 0.0, 0.0));
    assert_eq!(painting.lines[1].color, vec4(0.0, 1.0, 0.0, 1.0));
    assert_eq!(painting.quads[0].offset, vec3(0.5, 0.5, 0.0));
    assert_eq!(painting.quads[0].size, vec2(2.0, 3.0));
    assert_eq!(painting.quads[0].color, vec4(0.0, 0.0, 1.0, 1.0));
}

fn two_lines_one_quad() -> Painting {
    let mut painting = Painting::default();
    paint_line(&mut painting, vec3(0.0, 0.0, 0.0), vec3(1.0, 0.0, 0.0), vec4(1.0, 1.0, 1.0, 1.0));
    paint_line(&mut painting, vec3(0.0, 0.0, 0.0), vec3(0.0, 1.0, 0.0), vec4(1.0, 1.0, 1.0, 1.0));
    paint_quad(&mut painting, vec3(0.0, 0.0, 0.0), vec2(1.0, 1.0), vec4(1.0, 1.0, 1.0, 1.0));
    painting
}

#[test]
fn paint_entity_replaces_the_buffers_it_finds() {
    let mut context = Context::new();
    let both = spawn(&mut context);
    let lines_only = spawn(&mut context);
    let none = spawn(&mut context);
    add_components(&mut context, both, LINES | QUADS);
    add_components(&mut context, lines_only, LINES);
    let mut old = Painting::default();
    paint_line(&mut old, vec3(5.0, 5.0, 5.0), vec3(6.0, 6.0, 6.0), vec4(0.0, 0.0, 0.0, 1.0));
    paint_entity(&mut context, both, old);
    assert_eq!(get_component::<Lines>(&context, both).unwrap().0.len(), 1);
    paint_entity(&mut context, both, two_lines_one_quad());
    paint_entity(&mut context, lines_only, two_lines_one_quad());
    paint_entity(&mut context, none, two_lines_one_quad());
    assert_eq!(get_component::<Lines>(&context, both).unwrap().0.len(), 2);
    assert_eq!(get_component::<Lines>(&context, both).unwrap().0[1].end, vec3(0.0, 1.0, 0.0));
    assert_eq!(get_component::<Quads>(&context, both).unwrap().0.len(), 1);
    assert_eq!(get_component::<Lines>(&context, lines_only).unwrap().0.len(), 2);
    assert!(get_component::<Quads>(&context, lines_only).is_none());
    assert!(get_component::<Lines>(&context, none).is_none());
    assert_eq!(mask_of(&context, none), 0);
}

#[test]
fn paint_entity_on_a_dead_entity_does_nothing() {
    let mut context = Context::new();
    let e = spawn(&mut context);
    add_components(&mut context, e, LINES);
    destroy(&mut context, e);
    paint_entity(&mut context, e, two_lines_one_quad());
    assert!(get_component::<Lines>(&context, e).is_none());
}

#[test]
fn run_is_the_default_command() {
    assert_eq!(Command::default(), Command::Run);
    assert!(Options { command: None }.launches_app());
    assert!(Options { command: Some(Command::Run) }.launches_app());
}

#[test]
fn cameras_start_above_and_in_front_of_the_origin() {
    assert_eq!(initial_camera_position(), vec3(0.0, 4.0, 5.0));
}
