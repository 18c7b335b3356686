//! The window resource and frame timing.
//!
//! Instants are nanoseconds on a monotonic clock whose origin the caller
//! chooses; the library only takes differences of them.

use vstd::prelude::*;
use crate::context::Context;

verus! {

/// The least number of nanoseconds in which a frame-rate measurement
/// interval is over. A span of time counts as a full second as soon as its
/// length in seconds, rounded to single precision, is at least one, which is
/// the case from thirty-two nanoseconds before the second.
pub const MEASURE_NANOS: u64 = 999_999_968;

/// Nanoseconds in a millisecond.
pub const MILLI_NANOS: u64 = 1_000_000;

/// The window resource: what the world records about the window and the
/// pace of its frames.
#[derive(Debug, Clone, Copy)]
pub struct Window {
    /// The scale factor of the window, as the IEEE 754 binary64 encoding of
    /// the real.
    pub scale_factor: u64,
    /// Width and height of the window in physical pixels.
    pub physical_size: (u32, u32),
    /// Whether the program is to exit at the next frame.
    pub should_exit: bool,
    /// Frames counted in the last full measurement interval.
    pub frames_per_second: u32,
    /// Nanoseconds between the start of the previous frame and the start of
    /// this one.
    pub delta_time: u64,
    /// When the previous frame started.
    pub last_frame_start_instant: Option<u64>,
    /// When the current measurement interval started.
    pub current_frame_start_instant: Option<u64>,
    /// When the first frame started.
    pub initial_frame_start_instant: Option<u64>,
    /// Frames counted in the current measurement interval.
    pub frame_counter: u32,
    /// Milliseconds since the first frame started.
    pub uptime_milliseconds: u64,
}

/// The time from `earlier` to `later`, zero when `later` is not later.
pub open spec fn elapsed(later: u64, earlier: u64) -> u64 {
    if later >= earlier {
        (later - earlier) as u64
    } else {
        0
    }
}

impl Window {
    /// The window before its first frame.
    pub open spec fn initial() -> Window {
        Window {
            scale_factor: 0,
            physical_size: (0, 0),
            should_exit: false,
            frames_per_second: 0,
            delta_time: 0,
            last_frame_start_instant: None,
            current_frame_start_instant: None,
            initial_frame_start_instant: None,
            frame_counter: 0,
            uptime_milliseconds: 0,
        }
    }

    /// The window after a frame that starts at `now`.
    pub open spec fn ticked(self, now: u64) -> Window {
        let initial = match self.initial_frame_start_instant {
            Some(t) => t,
            None => now,
        };
        let start = match self.current_frame_start_instant {
            Some(t) => t,
            None => now,
        };
        let counted = (self.frame_counter + 1) as u32;
        let over = elapsed(now, start) >= MEASURE_NANOS;
        Window {
            initial_frame_start_instant: Some(initial),
            delta_time: match self.last_frame_start_instant {
                Some(last) => elapsed(now, last),
                None => 0,
            },
            last_frame_start_instant: Some(now),
            current_frame_start_instant: if over {
                Some(now)
            } else {
                Some(start)
            },
            uptime_milliseconds: elapsed(now, initial) / MILLI_NANOS,
            frame_counter: if over {
                0
            } else {
                counted
            },
            frames_per_second: if over {
                counted
            } else {
                self.frames_per_second
            },
            ..self
        }
    }
}

impl Default for Window {
    fn default() -> (window: Self)
        ensures
            window == Window::initial(),
    {
        Window {
            scale_factor: 0,
            physical_size: (0, 0),
            should_exit: false,
            frames_per_second: 0,
            delta_time: 0,
            last_frame_start_instant: None,
            current_frame_start_instant: None,
            initial_frame_start_instant: None,
            frame_counter: 0,
            uptime_milliseconds: 0,
        }
    }
}

/// The time from `earlier` to `later`, zero when `later` is not later.
fn since(later: u64, earlier: u64) -> (d: u64)
    ensures
        d == elapsed(later, earlier),
{
    if later >= earlier {
        later - earlier
    } else {
        0
    }
}

/// Refreshes the frame timing for a frame that starts at `now`: the time
/// since the previous frame, the uptime, and, once a measurement interval is
/// over, the frames per second.
pub fn update_frame_timing_system(context: &mut Context, now: u64)
    requires
        old(context).resources.window.frame_counter < u32::MAX,
    ensures
        final(context).resources.window == old(context).resources.window.ticked(now),
        final(context).resources.graphics == old(context).resources.graphics,
        final(context).resources.active_camera_entity
            == old(context).resources.active_camera_entity,
        final(context).world == old(context).world,
{
    let window = context.resources.window;
    let initial = match window.initial_frame_start_instant {
        Some(t) => t,
        None => now,
    };
    let delta_time = match window.last_frame_start_instant {
        Some(last) => since(now, last),
        None => 0,
    };
    let start = match window.current_frame_start_instant {
        Some(t) => t,
        None => now,
    };
    let counted = window.frame_counter + 1;
    let over = since(now, start) >= MEASURE_NANOS;
    context.resources.window = Window {
        initial_frame_start_instant: Some(initial),
        delta_time,
        last_frame_start_instant: Some(now),
        current_frame_start_instant: if over {
            Some(now)
        } else {
            Some(start)
        },
        uptime_milliseconds: since(now, initial) / MILLI_NANOS,
        frame_counter: if over {
            0
        } else {
            counted
        },
        frames_per_second: if over {
            counted
        } else {
            window.frames_per_second
        },
        scale_factor: window.scale_factor,
        physical_size: window.physical_size,
        should_exit: window.should_exit,
    };
}

} // verus!
