//! Component masks: one reserved bit per component kind.

use vstd::prelude::*;

verus! {

/// Bit of the camera component.
pub const CAMERA: u32 = 0x01;

/// Bit of the global (world-space) transform component.
pub const GLOBAL_TRANSFORM: u32 = 0x02;

/// Bit of the line-paint buffer component.
pub const LINES: u32 = 0x04;

/// Bit of the local transform component.
pub const LOCAL_TRANSFORM: u32 = 0x08;

/// Bit of the name component.
pub const NAME: u32 = 0x10;

/// Bit of the parent component.
pub const PARENT: u32 = 0x20;

/// Bit of the quad-paint buffer component.
pub const QUADS: u32 = 0x40;

/// Every component bit.
pub const ALL_COMPONENTS: u32 = 0x7f;

/// `mask` holds every bit of `required`.
pub open spec fn includes(mask: u32, required: u32) -> bool {
    mask & required == required
}

/// `mask` holds the bit (or one of the bits) of `kind`.
pub open spec fn has(mask: u32, kind: u32) -> bool {
    mask & kind != 0
}

/// For the bit of a single kind, holding the bit and including it are the
/// same.
pub proof fn lemma_single_kind(mask: u32)
    by (bit_vector)
    ensures
        mask & 0x01 != 0 <==> mask & 0x01 == 0x01,
        mask & 0x02 != 0 <==> mask & 0x02 == 0x02,
        mask & 0x04 != 0 <==> mask & 0x04 == 0x04,
        mask & 0x08 != 0 <==> mask & 0x08 == 0x08,
        mask & 0x10 != 0 <==> mask & 0x10 == 0x10,
        mask & 0x20 != 0 <==> mask & 0x20 == 0x20,
        mask & 0x40 != 0 <==> mask & 0x40 == 0x40,
{
}

} // verus!
