//! Paint buffers: the line and quad lists that an entity carries for drawing.

use vstd::prelude::*;
use nalgebra_glm::{Vec2, Vec3, Vec4};
use crate::context::{get_component_mut, Context, Row};
use crate::entity::EntityId;

verus! {

/// A coloured line segment.
#[derive(Clone, Copy, Debug)]
pub struct Line {
    pub start: Vec3,
    pub end: Vec3,
    pub color: Vec4,
}

/// A coloured rectangle.
#[derive(Clone, Copy, Debug)]
pub struct Quad {
    pub size: Vec2,
    pub offset: Vec3,
    pub color: Vec4,
}

/// The line-paint buffer component.
#[derive(Clone, Debug)]
pub struct Lines(pub Vec<Line>);

/// The quad-paint buffer component.
#[derive(Clone, Debug)]
pub struct Quads(pub Vec<Quad>);

impl View for Lines {
    type V = Seq<Line>;

    open spec fn view(&self) -> Seq<Line> {
        self.0@
    }
}

impl View for Quads {
    type V = Seq<Quad>;

    open spec fn view(&self) -> Seq<Quad> {
        self.0@
    }
}

impl Default for Lines {
    fn default() -> (lines: Self)
        ensures
            lines@ == Seq::<Line>::empty(),
    {
        Lines(Vec::new())
    }
}

impl Default for Quads {
    fn default() -> (quads: Self)
        ensures
            quads@ == Seq::<Quad>::empty(),
    {
        Quads(Vec::new())
    }
}

/// Lines and quads gathered before they are handed to an entity.
pub struct Painting {
    pub lines: Vec<Line>,
    pub quads: Vec<Quad>,
}

impl Default for Painting {
    fn default() -> (painting: Self)
        ensures
            painting.lines@ == Seq::<Line>::empty(),
            painting.quads@ == Seq::<Quad>::empty(),
    {
        Painting { lines: Vec::new(), quads: Vec::new() }
    }
}

/// Appends the quad of the given offset, size and colour.
pub fn paint_quad(painting: &mut Painting, offset: Vec3, size: Vec2, color: Vec4)
    ensures
        final(painting).quads@ == old(painting).quads@.push(Quad { size, offset, color }),
        final(painting).lines@ == old(painting).lines@,
{
    painting.quads.push(Quad { offset, size, color });
}

/// Appends the line from `start` to `end`.
pub fn paint_line(painting: &mut Painting, start: Vec3, end: Vec3, color: Vec4)
    ensures
        final(painting).lines@ == old(painting).lines@.push(Line { start, end, color }),
        final(painting).quads@ == old(painting).quads@,
{
    painting.lines.push(Line { start, end, color });
}

/// The twelve edges of the box with the given corners, in `color`.
///
/// Corner `4 * x + 2 * y + z` lies on the low side of an axis where its digit
/// is 0 and on the high side where it is 1. The edges come face by face: the
/// four of the bottom, the four of the top, then the four uprights.
pub open spec fn box_edges(corners: Seq<Vec3>, color: Vec4) -> Seq<Line> {
    seq![
        Line { start: corners[0], end: corners[4], color },
        Line { start: corners[4], end: corners[5], color },
        Line { start: corners[5], end: corners[1], color },
        Line { start: corners[1], end: corners[0], color },
        Line { start: corners[2], end: corners[6], color },
        Line { start: corners[6], end: corners[7], color },
        Line { start: corners[7], end: corners[3], color },
        Line { start: corners[3], end: corners[2], color },
        Line { start: corners[0], end: corners[2], color },
        Line { start: corners[4], end: corners[6], color },
        Line { start: corners[5], end: corners[7], color },
        Line { start: corners[1], end: corners[3], color },
    ]
}

/// Appends the twelve edges of the box with the given corners.
pub fn paint_box_edges(painting: &mut Painting, corners: &[Vec3; 8], color: Vec4)
    ensures
        final(painting).lines@ == old(painting).lines@ + box_edges(corners@, color),
        final(painting).quads@ == old(painting).quads@,
{
    let p000 = corners[0];
    let p001 = corners[1];
    let p010 = corners[2];
    let p011 = corners[3];
    let p100 = corners[4];
    let p101 = corners[5];
    let p110 = corners[6];
    let p111 = corners[7];
    // Bottom face
    paint_line(painting, p000, p100, color);
    paint_line(painting, p100, p101, color);
    paint_line(painting, p101, p001, color);
    paint_line(painting, p001, p000, color);
    // Top face
    paint_line(painting, p010, p110, color);
    paint_line(painting, p110, p111, color);
    paint_line(painting, p111, p011, color);
    paint_line(painting, p011, p010, color);
    // Vertical edges
    paint_line(painting, p000, p010, color);
    paint_line(painting, p100, p110, color);
    paint_line(painting, p101, p111, color);
    paint_line(painting, p001, p011, color);
    assert(painting.lines@ =~= old(painting).lines@ + box_edges(corners@, color));
}

/// `row` with each paint buffer that it has replaced by the matching list.
pub open spec fn painted(row: Row, lines: Seq<Line>, quads: Seq<Quad>) -> Row {
    Row {
        lines: if row.lines is Some {
            Some(lines)
        } else {
            None
        },
        quads: if row.quads is Some {
            Some(quads)
        } else {
            None
        },
        ..row
    }
}

/// Hands a painting to `entity`: each paint buffer that the entity has is
/// replaced by the painting's list of that kind.
pub fn paint_entity(context: &mut Context, entity: EntityId, painting: Painting)
    requires
        old(context).wf(),
    ensures
        final(context).wf(),
        final(context)@ == if old(context)@.dom().contains(entity) {
            old(context)@.insert(
                entity,
                painted(old(context)@[entity], painting.lines@, painting.quads@),
            )
        } else {
            old(context)@
        },
        final(context).world.allocation() == old(context).world.allocation(),
        final(context).resources == old(context).resources,
{
    let Painting { lines, quads } = painting;
    match get_component_mut::<Lines>(context, entity) {
        Some(buffer) => {
            buffer.0 = lines;
        },
        None => {},
    }
    match get_component_mut::<Quads>(context, entity) {
        Some(buffer) => {
            buffer.0 = quads;
        },
        None => {},
    }
    proof {
        if old(context)@.dom().contains(entity) {
            assert(context@ =~= old(context)@.insert(
                entity,
                painted(old(context)@[entity], painting.lines@, painting.quads@),
            ));
        } else {
            assert(context@ =~= old(context)@);
        }
    }
}

} // verus!
