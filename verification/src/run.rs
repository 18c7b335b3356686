//! What a window event asks of the program.
//!
//! The event loop belongs to the program around the library. For each event
//! it asks [`window_event`] what to do, does it, and comes back with the next
//! event.

use vstd::prelude::*;
use crate::context::Context;
use crate::window::Window;

verus! {

/// A window event, reduced to what the decision depends on.
#[derive(Debug, Clone, Copy)]
pub enum Event {
    /// The window was asked to close.
    CloseRequested,
    /// The window is to be drawn again.
    RedrawRequested,
    /// The window has a new size in physical pixels.
    Resized { width: u32, height: u32 },
    /// The window has a new scale factor, given as the IEEE 754 binary64
    /// encoding of the real.
    ScaleFactorChanged { scale_factor: u64 },
    /// Any other event.
    Other,
}

/// What the program is to do next.
#[derive(Debug, Clone, Copy, PartialEq, Eq, Structural)]
pub enum Step {
    /// Leave the event loop.
    Exit,
    /// Run the systems of a frame, then ask for a redraw.
    Frame,
    /// Fit the renderer to the new size, then ask for a redraw.
    Resize { width: u32, height: u32 },
    /// Pass the new scale factor on to the interface and the window, then ask
    /// for a redraw.
    Rescale,
    /// Hand the event to the interface and the input state, then ask for a
    /// redraw.
    Forward,
}

/// The step that `event` calls for.
pub open spec fn step_for(window: Window, event: Event) -> Step {
    if window.should_exit {
        Step::Exit
    } else {
        match event {
            Event::CloseRequested => Step::Exit,
            Event::RedrawRequested => Step::Frame,
            Event::Resized { width, height } => Step::Resize { width, height },
            Event::ScaleFactorChanged { .. } => Step::Rescale,
            Event::Other => Step::Forward,
        }
    }
}

/// The window after `event`: a new size or scale factor is recorded unless
/// the program is about to exit.
pub open spec fn window_after(window: Window, event: Event) -> Window {
    if window.should_exit {
        window
    } else {
        match event {
            Event::Resized { width, height } => Window { physical_size: (width, height), ..window },
            Event::ScaleFactorChanged { scale_factor } => Window { scale_factor, ..window },
            _ => window,
        }
    }
}

/// Takes a window event: records what it tells about the window and says what
/// the program is to do next.
pub fn window_event(context: &mut Context, event: Event) -> (step: Step)
    ensures
        step == step_for(old(context).resources.window, event),
        final(context).resources.window == window_after(old(context).resources.window, event),
        final(context).resources.graphics == old(context).resources.graphics,
        final(context).resources.active_camera_entity
            == old(context).resources.active_camera_entity,
        final(context).world == old(context).world,
{
    if context.resources.window.should_exit {
        return Step::Exit;
    }
    match event {
        Event::CloseRequested => Step::Exit,
        Event::RedrawRequested => Step::Frame,
        Event::Resized { width, height } => {
            context.resources.window.physical_size = (width, height);
            Step::Resize { width, height }
        },
        Event::ScaleFactorChanged { scale_factor } => {
            context.resources.window.scale_factor = scale_factor;
            Step::Rescale
        },
        Event::Other => Step::Forward,
    }
}

} // verus!
