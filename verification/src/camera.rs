//! The camera component.
//!
//! The library stores cameras and never computes with their parameters, so each
//! real-valued parameter is held as its IEEE 754 binary32 encoding, the value
//! that `to_bits` gives and `from_bits` reads back.

use vstd::prelude::*;
use nalgebra_glm::{Quat, Vec3};
use crate::context::{
    add_components, get_component, get_component_mut, lemma_mask_storage_coherence, Context, Row,
};
use crate::entity::EntityId;
use crate::linear::{vec3, vec3_of};
use crate::mask::{lemma_single_kind, CAMERA, LOCAL_TRANSFORM};
use crate::query::{query_entities, query_nth, selection, selects};
use crate::transform::LocalTransform;

verus! {

/// Encoding of 45.
pub const FOV_DEGREES: u32 = 0x4234_0000;

/// Encoding of a quarter turn in radians.
pub const QUARTER_TURN: u32 = 0x3fc9_0fdb;

/// Encoding of one hundredth.
pub const NEAR_PLANE: u32 = 0x3c23_d70a;

/// A perspective projection.
#[derive(Clone, Copy, Debug)]
pub struct PerspectiveCamera {
    /// Fixed aspect ratio; the viewport's ratio is used when absent.
    pub aspect_ratio: Option<u32>,
    /// Vertical field of view in radians.
    pub y_fov_rad: u32,
    /// Far plane; the projection is infinite when absent.
    pub z_far: Option<u32>,
    /// Near plane.
    pub z_near: u32,
}

impl PerspectiveCamera {
    /// The projection a new camera starts with.
    pub open spec fn initial() -> Self {
        PerspectiveCamera {
            aspect_ratio: None,
            y_fov_rad: QUARTER_TURN,
            z_far: None,
            z_near: NEAR_PLANE,
        }
    }
}

impl Default for PerspectiveCamera {
    fn default() -> (camera: Self)
        ensures
            camera == Self::initial(),
    {
        PerspectiveCamera {
            aspect_ratio: None,
            y_fov_rad: QUARTER_TURN,
            z_far: None,
            z_near: NEAR_PLANE,
        }
    }
}

/// An orthographic projection.
#[derive(Clone, Copy, Debug)]
pub struct OrthographicCamera {
    pub x_mag: u32,
    pub y_mag: u32,
    pub z_far: u32,
    pub z_near: u32,
}

impl Default for OrthographicCamera {
    fn default() -> (camera: Self)
        ensures
            camera == (OrthographicCamera { x_mag: 0, y_mag: 0, z_far: 0, z_near: 0 }),
    {
        OrthographicCamera { x_mag: 0, y_mag: 0, z_far: 0, z_near: 0 }
    }
}

/// How a camera projects the scene.
#[derive(Clone, Copy, Debug)]
pub enum Projection {
    Perspective(PerspectiveCamera),
    Orthographic(OrthographicCamera),
}

impl Default for Projection {
    fn default() -> (projection: Self)
        ensures
            projection == Projection::Perspective(PerspectiveCamera::initial()),
    {
        Projection::Perspective(PerspectiveCamera::default())
    }
}

/// The camera component.
#[derive(Clone, Copy, Debug)]
pub struct Camera {
    pub projection: Projection,
    /// Field of view in degrees.
    pub fov: u32,
}

impl Camera {
    /// The value a camera component is created with.
    pub open spec fn initial() -> Self {
        Camera { projection: Projection::Perspective(PerspectiveCamera::initial()), fov: FOV_DEGREES }
    }
}

impl Default for Camera {
    fn default() -> (camera: Self)
        ensures
            camera == Self::initial(),
    {
        Camera { projection: Projection::Perspective(PerspectiveCamera::default()), fov: FOV_DEGREES }
    }
}

impl View for Camera {
    type V = Camera;

    open spec fn view(&self) -> Camera {
        *self
    }
}

/// The camera entity at position `index` among the camera entities taken by
/// increasing slot index, if there are that many.
pub fn query_nth_camera(context: &Context, index: usize) -> (entity: Option<EntityId>)
    ensures
        entity == if index < selection(context@, CAMERA).len() {
            Some(selection(context@, CAMERA)[index as int])
        } else {
            None
        },
{
    query_nth(context, CAMERA, index)
}

/// Where a camera starts: four above the origin and five in front of it.
pub fn initial_camera_position() -> (position: Vec3)
    ensures
        position == vec3_of(0, 4, 5),
{
    vec3(0, 4, 5)
}

/// Places the camera `camera_entity`: sets the translation and the rotation
/// of its local transform and keeps the scale. Does nothing if the entity has
/// no local transform.
pub fn initialize_camera_transform(
    context: &mut Context,
    camera_entity: EntityId,
    translation: Vec3,
    rotation: Quat,
)
    requires
        old(context).wf(),
    ensures
        final(context).wf(),
        final(context)@ == if old(context)@.dom().contains(camera_entity) {
            old(context)@.insert(
                camera_entity,
                placed(old(context)@[camera_entity], translation, rotation),
            )
        } else {
            old(context)@
        },
        final(context).world.allocation() == old(context).world.allocation(),
        final(context).resources == old(context).resources,
{
    match get_component_mut::<LocalTransform>(context, camera_entity) {
        Some(local) => {
            local.translation = translation;
            local.rotation = rotation;
        },
        None => {
            assert(old(context)@.dom().contains(camera_entity) ==> old(context)@.insert(
                camera_entity,
                old(context)@[camera_entity],
            ) =~= old(context)@);
        },
    }
}

/// `row` with its local transform, if it has one, moved to `translation` and
/// turned to `rotation`.
pub open spec fn placed(row: Row, translation: Vec3, rotation: Quat) -> Row {
    match row.local_transform {
        Some(local) => Row {
            local_transform: Some(LocalTransform { translation, rotation, scale: local.scale }),
            ..row
        },
        None => row,
    }
}

/// The row of a camera after it was made sure to have a local transform: a
/// camera without one gets the initial local transform placed at
/// `translation` and `rotation`; any other row is unchanged.
pub open spec fn camera_ensured(row: Row, translation: Vec3, rotation: Quat) -> Row {
    if row.camera is Some && row.local_transform is None {
        placed(row.adding(LOCAL_TRANSFORM), translation, rotation)
    } else {
        row
    }
}

/// Gives every camera entity that lacks a local transform one, placed at
/// `translation` and `rotation`.
pub fn ensure_camera_transform_system(context: &mut Context, translation: Vec3, rotation: Quat)
    requires
        old(context).wf(),
    ensures
        final(context).wf(),
        final(context)@ == Map::new(
            |e: EntityId| old(context)@.dom().contains(e),
            |e: EntityId| camera_ensured(old(context)@[e], translation, rotation),
        ),
        final(context).world.allocation() == old(context).world.allocation(),
        final(context).resources == old(context).resources,
{
    let cameras = query_entities(context, CAMERA);
    let mut i: usize = 0;
    while i < cameras.len()
        invariant
            old(context).wf(),
            context.wf(),
            i <= cameras.len(),
            selects(old(context)@, CAMERA, cameras@),
            context@.dom() == old(context)@.dom(),
            forall|e: EntityId|
                context@.dom().contains(e) ==> #[trigger] context@[e] == if exists|k: int|
                    0 <= k < i && cameras[k] == e {
                    camera_ensured(old(context)@[e], translation, rotation)
                } else {
                    old(context)@[e]
                },
            context.world.allocation() == old(context).world.allocation(),
            context.resources == old(context).resources,
        decreases cameras.len() - i,
    {
        let entity = cameras[i];
        let ghost before = context@;
        proof {
            assert(cameras@.contains(entity));
            lemma_mask_storage_coherence(*old(context), entity);
            lemma_single_kind(old(context)@[entity].mask);
            assert forall|k: int| 0 <= k < i implies cameras[k] != entity by {}
        }
        let lacking = get_component::<LocalTransform>(context, entity).is_none();
        if lacking {
            add_components(context, entity, LOCAL_TRANSFORM);
            initialize_camera_transform(context, entity, translation, rotation);
        }
        proof {
            assert forall|e: EntityId| context@.dom().contains(e) implies #[trigger] context@[e]
                == if exists|k: int| 0 <= k < i + 1 && cameras[k] == e {
                camera_ensured(old(context)@[e], translation, rotation)
            } else {
                old(context)@[e]
            } by {
                if e == entity {
                    assert(0 <= i < i + 1 && cameras[i as int] == e);
                } else {
                    assert(context@[e] == before[e]);
                    if exists|k: int| 0 <= k < i + 1 && cameras[k] == e {
                        let k = choose|k: int| 0 <= k < i + 1 && cameras[k] == e;
                        assert(0 <= k < i && cameras[k] == e);
                    }
                }
            }
        }
        i = i + 1;
    }
    proof {
        let after = Map::new(
            |e: EntityId| old(context)@.dom().contains(e),
            |e: EntityId| camera_ensured(old(context)@[e], translation, rotation),
        );
        assert forall|e: EntityId| context@.dom().contains(e) implies context@[e] == after[e] by {
            lemma_mask_storage_coherence(*old(context), e);
            lemma_single_kind(old(context)@[e].mask);
            if old(context)@[e].camera is Some {
                assert(cameras@.contains(e));
                let k = choose|k: int| 0 <= k < cameras.len() && cameras[k] == e;
                assert(0 <= k < i && cameras[k] == e);
            }
        }
        assert(context@ =~= after);
    }
}

} // verus!
