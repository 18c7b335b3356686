//! The singleton resources: state that belongs to the world as a whole
//! rather than to an entity.

use vstd::prelude::*;
use crate::context::Context;
use crate::entity::EntityId;
use crate::window::Window;

verus! {

/// The graphics resource: what the world records about the display.
#[derive(Debug, Clone, Copy)]
pub struct Graphics {
    /// Width and height of the display viewport.
    pub viewport_size: (u32, u32),
}

/// The resources of a world, one slot each.
pub struct Resources {
    pub window: Window,
    pub graphics: Graphics,
    /// The entity whose camera the scene is seen through, if one is chosen.
    pub active_camera_entity: Option<EntityId>,
}

impl Resources {
    /// The resources of a new world.
    pub open spec fn initial() -> Resources {
        Resources {
            window: Window::initial(),
            graphics: Graphics { viewport_size: (0, 0) },
            active_camera_entity: None,
        }
    }
}

impl Default for Resources {
    fn default() -> (resources: Self)
        ensures
            resources == Resources::initial(),
    {
        Resources {
            window: Window::default(),
            graphics: Graphics { viewport_size: (0, 0) },
            active_camera_entity: None,
        }
    }
}

/// Takes a new size of the display. A size with a zero side is ignored;
/// any other becomes the viewport size. Returns whether the size was taken,
/// which is when the render targets are to be rebuilt for it.
pub fn resize_viewport(context: &mut Context, width: u32, height: u32) -> (taken: bool)
    ensures
        taken == (width != 0 && height != 0),
        final(context).resources.graphics.viewport_size == if taken {
            (width, height)
        } else {
            old(context).resources.graphics.viewport_size
        },
        final(context).resources.window == old(context).resources.window,
        final(context).resources.active_camera_entity
            == old(context).resources.active_camera_entity,
        final(context).world == old(context).world,
{
    if width == 0 || height == 0 {
        return false;
    }
    context.resources.graphics.viewport_size = (width, height);
    true
}

/// How many render targets are to be created so that `viewport_count`
/// viewports each have one, given that `target_count` exist.
pub fn missing_viewports(target_count: usize, viewport_count: usize) -> (missing: usize)
    ensures
        missing == if target_count >= viewport_count {
            0
        } else {
            viewport_count - target_count
        },
{
    if target_count >= viewport_count {
        0
    } else {
        viewport_count - target_count
    }
}

} // verus!
