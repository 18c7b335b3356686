use abyssal::context::{spawn, Context};
use abyssal::paint::{paint_box_edges, paint_line, Painting};
use abyssal::resources::{missing_viewports, resize_viewport};
use abyssal::run::{window_event, Event, Step};
use nalgebra_glm::{vec3, vec4, Vec3};

#[test]
fn close_request_exits() {
    let mut context = Context::new();
    assert_eq!(window_event(&mut context, Event::CloseRequested), Step::Exit);
    assert!(!context.resources.window.should_exit);
}

#[test]
fn redraw_runs_a_frame() {
    let mut context = Context::new();
    assert_eq!(window_event(&mut context, Event::RedrawRequested), Step::Frame);
}

#[test]
fn resize_is_recorded_and_passed_on() {
    let mut context = Context::new();
    let step = window_event(&mut context, Event::Resized { width: 1280, height: 720 });
    assert_eq!(step, Step::Resize { width: 1280, height: 720 });
    assert_eq!(context.resources.window.physical_size, (1280, 720));
    assert_eq!(context.resources.graphics.viewport_size, (0, 0));
}

#[test]
fn scale_factor_is_recorded() {
    let mut context = Context::new();
    let step =
        window_event(&mut context, Event::ScaleFactorChanged { scale_factor: 1.5f64.to_bits() });
    assert_eq!(step, Step::Rescale);
    assert_eq!(f64::from_bits(context.resources.window.scale_factor), 1.5);
}

#[test]
fn other_events_are_forwarded() {
    let mut context = Context::new();
    assert_eq!(window_event(&mut context, Event::Other), Step::Forward);
}

#[test]
fn a_window_that_is_to_exit_exits_on_any_event() {
    let events = [
        Event::CloseRequested,
        Event::RedrawRequested,
        Event::Resized { width: 3, height: 4 },
        Event::ScaleFactorChanged { scale_factor: 2.0f64.to_bits() },
        Event::Other,
    ];
    for event in events {
        let mut context = Context::new();
        let e = spawn(&mut context);
        context.resources.active_camera_entity = Some(e);
        context.resources.window.should_exit = true;
        context.resources.window.physical_size = (1, 2);
        assert_eq!(window_event(&mut context, event), Step::Exit);
        assert_eq!(context.resources.window.physical_size, (1, 2));
        assert_eq!(context.resources.window.scale_factor, 0);
        assert_eq!(context.resources.active_camera_entity, Some(e));
    }
}

#[test]
fn viewport_takes_sizes_without_a_zero_side() {
    let mut context = Context::new();
    assert!(resize_viewport(&mut context, 640, 480));
    assert_eq!(context.resources.graphics.viewport_size, (640, 480));
    assert!(!resize_viewport(&mut context, 0, 480));
    assert!(!resize_viewport(&mut context, 640, 0));
    assert!(!resize_viewport(&mut context, 0, 0));
    assert_eq!(context.resources.graphics.viewport_size, (640, 480));
    assert!(resize_viewport(&mut context, 1, 1));
    assert_eq!(context.resources.graphics.viewport_size, (1, 1));
    assert_eq!(context.resources.window.physical_size, (0, 0));
}

#[test]
fn missing_viewports_counts_what_is_lacking() {
    assert_eq!(missing_viewports(0, 0), 0);
    assert_eq!(missing_viewports(0, 3), 3);
    assert_eq!(missing_viewports(2, 3), 1);
    assert_eq!(missing_viewports(3, 3), 0);
    assert_eq!(missing_viewports(5, 3), 0);
    assert_eq!(missing_viewports(0, usize::MAX), usize::MAX);
}

fn unit_corners() -> [Vec3; 8] {
    [
        vec3(-1.0, -1.0, -1.0),
        vec3(-1.0, -1.0, 1.0),
        vec3(-1.0, 1.0, -1.0),
        vec3(-1.0, 1.0, 1.0),
        vec3(1.0, -1.0, -1.0),
        vec3(1.0, -1.0, 1.0),
        vec3(1.0, 1.0, -1.0),
        vec3(1.0, 1.0, 1.0),
    ]
}

#[test]
fn box_has_twelve_edges_in_face_order() {
    let corners = unit_corners();
    let color = vec4(0.25, 0.5, 0.75, 1.0);
    let mut painting = Painting::default();
    paint_line(&mut painting, vec3(9.0, 9.0, 9.0), vec3(8.0, 8.0, 8.0), color);
    paint_box_edges(&mut painting, &corners, color);
    assert_eq!(painting.lines.len(), 13);
    assert!(painting.quads.is_empty());
    let pairs = [
        (0, 4),
        (4, 5),
        (5, 1),
        (1, 0),
        (2, 6),
        (6, 7),
        (7, 3),
        (3, 2),
        (0, 2),
        (4, 6),
        (5, 7),
        (1, 3),
    ];
    for (k, (a, b)) in pairs.iter().enumerate() {
        let line = &painting.lines[k + 1];
        assert_eq!(line.start, corners[*a]);
        assert_eq!(line.end, corners[*b]);
        assert_eq!(line.color, color);
    }
}

#[test]
fn every_box_edge_joins_corners_that_differ_on_one_axis() {
    let corners = unit_corners();
    let mut painting = Painting::default();
    paint_box_edges(&mut painting, &corners, vec4(1.0, 1.0, 1.0, 1.0));
    let mut seen = Vec::new();
    for line in &painting.lines {
        let d = line.end - line.start;
        let changed = [d.x, d.y, d.z].iter().filter(|c| **c != 0.0).count();
        assert_eq!(changed, 1);
        let a = corners.iter().position(|c| *c == line.start).unwrap();
        let b = corners.iter().position(|c| *c == line.end).unwrap();
        let key = (a.min(b), a.max(b));
        assert!(!seen.contains(&key));
        seen.push(key);
    }
    assert_eq!(seen.len(), 12);
}
