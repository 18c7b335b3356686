use abyssal::context::{spawn, Context};
use abyssal::window::{update_frame_timing_system, Window, MEASURE_NANOS, MILLI_NANOS};
use std::time::Duration;

const SECOND: u64 = 1_000_000_000;

#[test]
fn window_starts_blank() {
    let context = Context::new();
    let window = context.resources.window;
    assert_eq!(window.frame_counter, 0);
    assert_eq!(window.frames_per_second, 0);
    assert_eq!(window.delta_time, 0);
    assert_eq!(window.uptime_milliseconds, 0);
    assert_eq!(window.last_frame_start_instant, None);
    assert_eq!(window.current_frame_start_instant, None);
    assert_eq!(window.initial_frame_start_instant, None);
    assert!(!window.should_exit);
    assert_eq!(window.physical_size, (0, 0));
    assert_eq!(context.resources.graphics.viewport_size, (0, 0));
    let w = Window::default();
    assert_eq!(w.frame_counter, 0);
    assert_eq!(f64::from_bits(w.scale_factor), 0.0);
}

#[test]
fn measure_interval_is_a_second_in_single_precision() {
    for nanos in (MEASURE_NANOS - 200)..(MEASURE_NANOS + 200) {
        let over = Duration::from_nanos(nanos).as_secs_f32() >= 1.0;
        assert_eq!(over, nanos >= MEASURE_NANOS, "at {nanos} ns");
    }
    assert!(Duration::from_nanos(SECOND).as_secs_f32() >= 1.0);
    assert!(Duration::from_nanos(3 * SECOND + 5).as_secs_f32() >= 1.0);
    assert!(Duration::from_nanos(SECOND / 2).as_secs_f32() < 1.0);
    assert_eq!(MILLI_NANOS, 1_000_000);
}

#[test]
fn first_frame() {
    let mut context = Context::new();
    update_frame_timing_system(&mut context, 5 * SECOND);
    let window = context.resources.window;
    assert_eq!(window.initial_frame_start_instant, Some(5 * SECOND));
    assert_eq!(window.last_frame_start_instant, Some(5 * SECOND));
    assert_eq!(window.current_frame_start_instant, Some(5 * SECOND));
    assert_eq!(window.delta_time, 0);
    assert_eq!(window.uptime_milliseconds, 0);
    assert_eq!(window.frame_counter, 1);
    assert_eq!(window.frames_per_second, 0);
}

#[test]
fn window_handle_set_before_the_first_frame_gives_a_delta() {
    let mut context = Context::new();
    context.resources.window.last_frame_start_instant = Some(SECOND);
    update_frame_timing_system(&mut context, SECOND + 250 * MILLI_NANOS);
    let window = context.resources.window;
    assert_eq!(window.delta_time, 250 * MILLI_NANOS);
    assert_eq!(window.initial_frame_start_instant, Some(SECOND + 250 * MILLI_NANOS));
    assert_eq!(window.uptime_milliseconds, 0);
}

#[test]
fn frames_within_a_second_are_counted() {
    let mut context = Context::new();
    let step = 16_666_667;
    let mut now = 10 * SECOND;
    for frame in 1..=59u32 {
        update_frame_timing_system(&mut context, now);
        let window = context.resources.window;
        assert_eq!(window.frame_counter, frame);
        assert_eq!(window.frames_per_second, 0);
        assert_eq!(window.delta_time, if frame == 1 { 0 } else { step });
        assert_eq!(window.uptime_milliseconds, (now - 10 * SECOND) / MILLI_NANOS);
        now += step;
    }
}

#[test]
fn a_full_second_publishes_the_frame_rate() {
    let mut context = Context::new();
    let start = 2 * SECOND;
    for frame in 0..60u64 {
        update_frame_timing_system(&mut context, start + frame * 16 * MILLI_NANOS);
    }
    assert_eq!(context.resources.window.frame_counter, 60);
    update_frame_timing_system(&mut context, start + SECOND);
    let window = context.resources.window;
    assert_eq!(window.frames_per_second, 61);
    assert_eq!(window.frame_counter, 0);
    assert_eq!(window.current_frame_start_instant, Some(start + SECOND));
    assert_eq!(window.initial_frame_start_instant, Some(start));
    assert_eq!(window.uptime_milliseconds, 1000);
    update_frame_timing_system(&mut context, start + SECOND + 16 * MILLI_NANOS);
    let window = context.resources.window;
    assert_eq!(window.frames_per_second, 61);
    assert_eq!(window.frame_counter, 1);
    assert_eq!(window.delta_time, 16 * MILLI_NANOS);
}

#[test]
fn interval_ends_just_before_the_full_second() {
    let mut context = Context::new();
    update_frame_timing_system(&mut context, 0);
    update_frame_timing_system(&mut context, MEASURE_NANOS - 1);
    assert_eq!(context.resources.window.frame_counter, 2);
    assert_eq!(context.resources.window.frames_per_second, 0);
    update_frame_timing_system(&mut context, MEASURE_NANOS);
    assert_eq!(context.resources.window.frame_counter, 0);
    assert_eq!(context.resources.window.frames_per_second, 3);
}

#[test]
fn a_clock_that_steps_back_gives_zero_spans() {
    let mut context = Context::new();
    update_frame_timing_system(&mut context, 9 * SECOND);
    update_frame_timing_system(&mut context, 4 * SECOND);
    let window = context.resources.window;
    assert_eq!(window.delta_time, 0);
    assert_eq!(window.uptime_milliseconds, 0);
    assert_eq!(window.last_frame_start_instant, Some(4 * SECOND));
    assert_eq!(window.frame_counter, 2);
}

#[test]
fn timing_leaves_the_world_and_other_resources_alone() {
    let mut context = Context::new();
    let e = spawn(&mut context);
    context.resources.active_camera_entity = Some(e);
    context.resources.window.should_exit = true;
    context.resources.window.physical_size = (800, 600);
    context.resources.window.scale_factor = 2.0f64.to_bits();
    context.resources.graphics.viewport_size = (800, 600);
    update_frame_timing_system(&mut context, 77);
    assert_eq!(context.resources.active_camera_entity, Some(e));
    assert!(context.resources.window.should_exit);
    assert_eq!(context.resources.window.physical_size, (800, 600));
    assert_eq!(f64::from_bits(context.resources.window.scale_factor), 2.0);
    assert_eq!(context.resources.graphics.viewport_size, (800, 600));
    assert!(abyssal::context::is_alive(&context, e));
}
