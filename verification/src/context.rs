//! The world: entity table, component columns and resources.

use vstd::prelude::*;
use crate::camera::Camera;
use crate::entity::EntityId;
use crate::mask::{
    has, ALL_COMPONENTS, CAMERA, GLOBAL_TRANSFORM, LINES, LOCAL_TRANSFORM, NAME, PARENT, QUADS,
};
use crate::paint::{Line, Lines, Quad, Quads};
use crate::transform::{GlobalTransform, LocalTransform};
use crate::tree::{Name, Parent};
use crate::resources::Resources;

verus! {

/// The components of one entity, as contracts see them: the stored mask and,
/// for each kind, the view of the stored value if there is one.
pub struct Row {
    pub mask: u32,
    pub camera: Option<Camera>,
    pub global_transform: Option<GlobalTransform>,
    pub lines: Option<Seq<Line>>,
    pub local_transform: Option<LocalTransform>,
    pub name: Option<Seq<char>>,
    pub parent: Option<Parent>,
    pub quads: Option<Seq<Quad>>,
}

impl Row {
    /// The row of an entity without components.
    pub open spec fn empty() -> Row {
        Row {
            mask: 0,
            camera: None,
            global_transform: None,
            lines: None,
            local_transform: None,
            name: None,
            parent: None,
            quads: None,
        }
    }

    /// The mask has the bit of a kind exactly when the row holds a value of
    /// that kind, and it has no other bit.
    pub open spec fn coherent(self) -> bool {
        &&& self.mask & !ALL_COMPONENTS == 0
        &&& has(self.mask, CAMERA) <==> self.camera is Some
        &&& has(self.mask, GLOBAL_TRANSFORM) <==> self.global_transform is Some
        &&& has(self.mask, LINES) <==> self.lines is Some
        &&& has(self.mask, LOCAL_TRANSFORM) <==> self.local_transform is Some
        &&& has(self.mask, NAME) <==> self.name is Some
        &&& has(self.mask, PARENT) <==> self.parent is Some
        &&& has(self.mask, QUADS) <==> self.quads is Some
    }

    /// The row after the kinds of `kinds` were added: a kind that the row
    /// lacks gets its initial value, a kind that it has keeps its value.
    pub open spec fn adding(self, kinds: u32) -> Row {
        Row {
            mask: self.mask | (kinds & ALL_COMPONENTS),
            camera: if has(kinds, CAMERA) && self.camera is None {
                Some(Camera::initial())
            } else {
                self.camera
            },
            global_transform: if has(kinds, GLOBAL_TRANSFORM) && self.global_transform is None {
                Some(GlobalTransform::initial())
            } else {
                self.global_transform
            },
            lines: if has(kinds, LINES) && self.lines is None {
                Some(Seq::empty())
            } else {
                self.lines
            },
            local_transform: if has(kinds, LOCAL_TRANSFORM) && self.local_transform is None {
                Some(LocalTransform::initial())
            } else {
                self.local_transform
            },
            name: if has(kinds, NAME) && self.name is None {
                Some(Seq::empty())
            } else {
                self.name
            },
            parent: if has(kinds, PARENT) && self.parent is None {
                Some(Parent(EntityId { index: 0, generation: 0 }))
            } else {
                self.parent
            },
            quads: if has(kinds, QUADS) && self.quads is None {
                Some(Seq::empty())
            } else {
                self.quads
            },
        }
    }

    /// The row after the kinds of `kinds` were removed.
    pub open spec fn removing(self, kinds: u32) -> Row {
        Row {
            mask: self.mask & !kinds,
            camera: if has(kinds, CAMERA) { None } else { self.camera },
            global_transform: if has(kinds, GLOBAL_TRANSFORM) { None } else { self.global_transform },
            lines: if has(kinds, LINES) { None } else { self.lines },
            local_transform: if has(kinds, LOCAL_TRANSFORM) { None } else { self.local_transform },
            name: if has(kinds, NAME) { None } else { self.name },
            parent: if has(kinds, PARENT) { None } else { self.parent },
            quads: if has(kinds, QUADS) { None } else { self.quads },
        }
    }
}

/// The record of the identifier allocator.
pub struct Allocation {
    /// The identifiers handed out so far, live or not.
    pub issued: Set<EntityId>,
    /// The number of slots of the entity table.
    pub slots: nat,
    /// The number of vacant slots that wait to be occupied again.
    pub vacant: nat,
}

impl Allocation {
    /// The record after `id` was handed out: it occupies a vacant slot if
    /// there is one, else a new slot.
    pub open spec fn spawning(self, id: EntityId) -> Allocation {
        Allocation {
            issued: self.issued.insert(id),
            slots: if self.vacant > 0 {
                self.slots
            } else {
                self.slots + 1
            },
            vacant: if self.vacant > 0 {
                (self.vacant - 1) as nat
            } else {
                0
            },
        }
    }

    /// The record after an entity was destroyed. Its slot becomes vacant
    /// unless `exhausted`, which is when the slot has no generation left.
    pub open spec fn destroying(self, exhausted: bool) -> Allocation {
        Allocation {
            vacant: if exhausted {
                self.vacant
            } else {
                self.vacant + 1
            },
            ..self
        }
    }
}

/// One slot of the entity table.
struct Slot {
    /// Generation of the entity that occupies the slot, or occupied it last.
    generation: u32,
    /// Whether an entity occupies the slot.
    live: bool,
    /// The component mask of the occupant; zero for a vacant slot.
    mask: u32,
}

/// The view of an optional component.
pub open spec fn seen<T: View>(value: Option<T>) -> Option<T::V> {
    match value {
        Some(v) => Some(v@),
        None => None,
    }
}

/// A column agrees with the entity table: it has one cell per slot, and a cell
/// is filled exactly for a live slot whose mask has the bit.
spec fn column_agrees<T>(slots: Seq<Slot>, column: Seq<Option<T>>, bit: u32) -> bool {
    &&& column.len() == slots.len()
    &&& forall|i: int|
        0 <= i < slots.len() ==> ((#[trigger] column[i]) is Some <==> slots[i].live && has(
            slots[i].mask,
            bit,
        ))
}

/// The entity table and the component columns.
pub struct World {
    slots: Vec<Slot>,
    /// Vacant slots that may be occupied again.
    free: Vec<usize>,
    /// Number of live entities.
    population: usize,
    camera: Vec<Option<Camera>>,
    global_transform: Vec<Option<GlobalTransform>>,
    lines: Vec<Option<Lines>>,
    local_transform: Vec<Option<LocalTransform>>,
    name: Vec<Option<Name>>,
    parent: Vec<Option<Parent>>,
    quads: Vec<Option<Quads>>,
}

impl View for World {
    type V = Map<EntityId, Row>;

    /// The live entities, each with its row.
    closed spec fn view(&self) -> Map<EntityId, Row> {
        Map::new(|e: EntityId| self.live(e), |e: EntityId| self.row(e.index as int))
    }
}

impl World {
    spec fn live(&self, e: EntityId) -> bool {
        &&& e.index < self.slots.len()
        &&& self.slots[e.index as int].live
        &&& self.slots[e.index as int].generation == e.generation
    }

    spec fn row(&self, i: int) -> Row {
        Row {
            mask: self.slots[i].mask,
            camera: seen(self.camera[i]),
            global_transform: seen(self.global_transform[i]),
            lines: seen(self.lines[i]),
            local_transform: seen(self.local_transform[i]),
            name: seen(self.name[i]),
            parent: seen(self.parent[i]),
            quads: seen(self.quads[i]),
        }
    }

    /// What the allocator has done so far.
    pub closed spec fn allocation(&self) -> Allocation {
        Allocation {
            issued: Set::new(
                |e: EntityId|
                    e.index < self.slots.len() && e.generation
                        <= self.slots[e.index as int].generation,
            ),
            slots: self.slots.len() as nat,
            vacant: self.free.len() as nat,
        }
    }

    /// `e` was handed out by `spawn` at some point, whether or not its entity
    /// is still live.
    pub open spec fn issued(&self, e: EntityId) -> bool {
        self.allocation().issued.contains(e)
    }

    /// The invariant of the world, which every operation keeps.
    pub closed spec fn wf(&self) -> bool {
        &&& column_agrees(self.slots@, self.camera@, CAMERA)
        &&& column_agrees(self.slots@, self.global_transform@, GLOBAL_TRANSFORM)
        &&& column_agrees(self.slots@, self.lines@, LINES)
        &&& column_agrees(self.slots@, self.local_transform@, LOCAL_TRANSFORM)
        &&& column_agrees(self.slots@, self.name@, NAME)
        &&& column_agrees(self.slots@, self.parent@, PARENT)
        &&& column_agrees(self.slots@, self.quads@, QUADS)
        &&& forall|i: int|
            0 <= i < self.slots.len() ==> (#[trigger] self.slots[i]).mask & !ALL_COMPONENTS == 0
        &&& forall|j: int|
            0 <= j < self.free.len() ==> {
                &&& (#[trigger] self.free[j]) < self.slots.len()
                &&& !self.slots[self.free[j] as int].live
                &&& self.slots[self.free[j] as int].generation < u32::MAX
            }
        &&& self.free@.no_duplicates()
        &&& self@.dom().finite()
        &&& self@.dom().len() == self.population
        &&& self.population + self.free.len() <= self.slots.len()
    }
}

/// Facts about the empty mask.
proof fn lemma_empty_mask()
    by (bit_vector)
    ensures
        0u32 & !0x7fu32 == 0,
        forall|k: u32| 0u32 & k == 0,
{
}

/// The bits of a union and of a difference of masks, kind by kind.
proof fn lemma_mask_algebra(m: u32, k: u32)
    by (bit_vector)
    ensures
        m & !0x7fu32 == 0 ==> (m | (k & 0x7f)) & !0x7fu32 == 0,
        m & !0x7fu32 == 0 ==> (m & !k) & !0x7fu32 == 0,
        (m | (k & 0x7f)) & 0x01 != 0 <==> m & 0x01 != 0 || k & 0x01 != 0,
        (m | (k & 0x7f)) & 0x02 != 0 <==> m & 0x02 != 0 || k & 0x02 != 0,
        (m | (k & 0x7f)) & 0x04 != 0 <==> m & 0x04 != 0 || k & 0x04 != 0,
        (m | (k & 0x7f)) & 0x08 != 0 <==> m & 0x08 != 0 || k & 0x08 != 0,
        (m | (k & 0x7f)) & 0x10 != 0 <==> m & 0x10 != 0 || k & 0x10 != 0,
        (m | (k & 0x7f)) & 0x20 != 0 <==> m & 0x20 != 0 || k & 0x20 != 0,
        (m | (k & 0x7f)) & 0x40 != 0 <==> m & 0x40 != 0 || k & 0x40 != 0,
        (m & !k) & 0x01 != 0 <==> m & 0x01 != 0 && k & 0x01 == 0,
        (m & !k) & 0x02 != 0 <==> m & 0x02 != 0 && k & 0x02 == 0,
        (m & !k) & 0x04 != 0 <==> m & 0x04 != 0 && k & 0x04 == 0,
        (m & !k) & 0x08 != 0 <==> m & 0x08 != 0 && k & 0x08 == 0,
        (m & !k) & 0x10 != 0 <==> m & 0x10 != 0 && k & 0x10 == 0,
        (m & !k) & 0x20 != 0 <==> m & 0x20 != 0 && k & 0x20 == 0,
        (m & !k) & 0x40 != 0 <==> m & 0x40 != 0 && k & 0x40 == 0,
{
}

/// `after` is `before` with the cell at `i` replaced by one whose view is `cell`.
spec fn cell_replaced<T: View>(
    before: Seq<Option<T>>,
    after: Seq<Option<T>>,
    i: int,
    cell: Option<T::V>,
) -> bool {
    &&& after.len() == before.len()
    &&& forall|j: int| 0 <= j < before.len() && j != i ==> #[trigger] after[j] == before[j]
    &&& seen(after[i]) == cell
}

impl World {
    /// The row of a live entity is coherent.
    proof fn lemma_row_coherent(&self, e: EntityId)
        requires
            self.wf(),
            self.live(e),
        ensures
            self.row(e.index as int).coherent(),
    {
        let i = e.index as int;
        assert(self.slots[i].mask & !ALL_COMPONENTS == 0);
        assert(self.camera[i] is Some <==> has(self.slots[i].mask, CAMERA));
        assert(self.global_transform[i] is Some <==> has(self.slots[i].mask, GLOBAL_TRANSFORM));
        assert(self.lines[i] is Some <==> has(self.slots[i].mask, LINES));
        assert(self.local_transform[i] is Some <==> has(self.slots[i].mask, LOCAL_TRANSFORM));
        assert(self.name[i] is Some <==> has(self.slots[i].mask, NAME));
        assert(self.parent[i] is Some <==> has(self.slots[i].mask, PARENT));
        assert(self.quads[i] is Some <==> has(self.slots[i].mask, QUADS));
    }

    /// Replacing the row of a live entity by a coherent row keeps the
    /// invariant and changes the view at that entity only.
    proof fn lemma_row_replaced(&self, after: World, e: EntityId, row: Row)
        requires
            self.wf(),
            self.live(e),
            row.coherent(),
            after.slots@ == self.slots@.update(
                e.index as int,
                Slot { generation: e.generation, live: true, mask: row.mask },
            ),
            after.free@ == self.free@,
            after.population == self.population,
            cell_replaced(self.camera@, after.camera@, e.index as int, row.camera),
            cell_replaced(
                self.global_transform@,
                after.global_transform@,
                e.index as int,
                row.global_transform,
            ),
            cell_replaced(self.lines@, after.lines@, e.index as int, row.lines),
            cell_replaced(
                self.local_transform@,
                after.local_transform@,
                e.index as int,
                row.local_transform,
            ),
            cell_replaced(self.name@, after.name@, e.index as int, row.name),
            cell_replaced(self.parent@, after.parent@, e.index as int, row.parent),
            cell_replaced(self.quads@, after.quads@, e.index as int, row.quads),
        ensures
            after.wf(),
            after@ == self@.insert(e, row),
            after.allocation() == self.allocation(),
    {
        assert(after@ =~= self@.insert(e, row));
        assert(after.allocation().issued =~= self.allocation().issued);
    }
}

/// `after` has a filled cell at `i` exactly when `before` has one, and is
/// `before` elsewhere.
spec fn cell_kept<T>(before: Seq<Option<T>>, after: Seq<Option<T>>, i: int) -> bool {
    &&& after.len() == before.len()
    &&& forall|j: int| 0 <= j < before.len() && j != i ==> #[trigger] after[j] == before[j]
    &&& after[i] is Some <==> before[i] is Some
}

impl World {
    /// `after` is this world but for the values held in the cells of slot `i`.
    spec fn values_changed(&self, after: World, i: int) -> bool {
        &&& after.slots@ == self.slots@
        &&& after.free@ == self.free@
        &&& after.population == self.population
        &&& cell_kept(self.camera@, after.camera@, i)
        &&& cell_kept(self.global_transform@, after.global_transform@, i)
        &&& cell_kept(self.lines@, after.lines@, i)
        &&& cell_kept(self.local_transform@, after.local_transform@, i)
        &&& cell_kept(self.name@, after.name@, i)
        &&& cell_kept(self.parent@, after.parent@, i)
        &&& cell_kept(self.quads@, after.quads@, i)
    }

    /// Whatever is written into the components that a live entity has, the
    /// invariant holds afterwards and only the row of that entity differs.
    proof fn lemma_values_changed(&self, e: EntityId)
        requires
            self.wf(),
        ensures
            self.live(e) ==> forall|after: World|
                #![trigger after.wf()]
                #![trigger after@]
                #![trigger after.allocation()]
                self.values_changed(after, e.index as int) ==> after.wf() && after@ == self@.insert(
                    e,
                    after.row(e.index as int),
                ) && after.allocation() == self.allocation(),
            forall|after: World|
                #![trigger after.wf()]
                #![trigger after@]
                #![trigger after.allocation()]
                self.values_changed(after, -1) ==> after.wf() && after@ == self@
                    && after.allocation() == self.allocation(),
    {
        if self.live(e) {
            assert forall|after: World|
                self.values_changed(after, e.index as int) implies after.wf() && after@
                == self@.insert(e, after.row(e.index as int)) && after.allocation()
                == self.allocation() by {
                assert(after@ =~= self@.insert(e, after.row(e.index as int)));
                assert(after.allocation().issued =~= self.allocation().issued);
            }
        }
        assert forall|after: World| self.values_changed(after, -1) implies after.wf() && after@
            == self@ && after.allocation() == self.allocation() by {
            assert(after@ =~= self@);
            assert(after.allocation().issued =~= self.allocation().issued);
        }
    }
}

/// The world together with the singleton resources.
pub struct Context {
    pub resources: Resources,
    pub world: World,
}

impl Default for Context {
    fn default() -> (context: Self)
        ensures
            context.wf(),
            context@ == Map::<EntityId, Row>::empty(),
            context.resources == Resources::initial(),
            context.world.allocation() == (Allocation { issued: Set::empty(), slots: 0, vacant: 0 }),
    {
        Context::new()
    }
}

impl View for Context {
    type V = Map<EntityId, Row>;

    open spec fn view(&self) -> Map<EntityId, Row> {
        self.world@
    }
}

impl Context {
    /// The invariant of the world, which every operation keeps.
    pub open spec fn wf(&self) -> bool {
        self.world.wf()
    }

    /// A world without entities, with every resource at its initial value.
    pub fn new() -> (context: Self)
        ensures
            context.wf(),
            context@ == Map::<EntityId, Row>::empty(),
            context.resources == Resources::initial(),
            context.world.allocation() == (Allocation { issued: Set::empty(), slots: 0, vacant: 0 }),
    {
        let world = World {
            slots: Vec::new(),
            free: Vec::new(),
            population: 0,
            camera: Vec::new(),
            global_transform: Vec::new(),
            lines: Vec::new(),
            local_transform: Vec::new(),
            name: Vec::new(),
            parent: Vec::new(),
            quads: Vec::new(),
        };
        assert(world@ =~= Map::<EntityId, Row>::empty());
        assert(world.allocation().issued =~= Set::<EntityId>::empty());
        Context { resources: Resources::default(), world }
    }
}

/// Whether `entity` is live.
pub fn is_alive(context: &Context, entity: EntityId) -> (alive: bool)
    ensures
        alive == context@.dom().contains(entity),
{
    if entity.index < context.world.slots.len() {
        let slot = &context.world.slots[entity.index];
        slot.live && slot.generation == entity.generation
    } else {
        false
    }
}

/// Creates an entity without components and returns its identifier, which
/// was never handed out before.
pub fn spawn(context: &mut Context) -> (id: EntityId)
    requires
        old(context).wf(),
    ensures
        final(context).wf(),
        !old(context).world.issued(id),
        !old(context)@.dom().contains(id),
        final(context)@ == old(context)@.insert(id, Row::empty()),
        final(context).world.allocation() == old(context).world.allocation().spawning(id),
        final(context).resources == old(context).resources,
{
    proof {
        lemma_empty_mask();
    }
    let id = match context.world.free.pop() {
        Some(i) => {
            let generation = context.world.slots[i].generation + 1;
            context.world.slots[i] = Slot { generation, live: true, mask: 0 };
            EntityId { index: i, generation }
        },
        None => {
            let i = context.world.slots.len();
            context.world.slots.push(Slot { generation: 0, live: true, mask: 0 });
            context.world.camera.push(None);
            context.world.global_transform.push(None);
            context.world.lines.push(None);
            context.world.local_transform.push(None);
            context.world.name.push(None);
            context.world.parent.push(None);
            context.world.quads.push(None);
            EntityId { index: i, generation: 0 }
        },
    };
    assert(context.world.population < context.world.slots.len() <= usize::MAX);
    context.world.population = context.world.population + 1;
    proof {
        assert(context.world@ =~= old(context).world@.insert(id, Row::empty()));
        assert(context.world.allocation().issued =~= old(context).world.allocation().issued.insert(
            id,
        ));
    }
    id
}

/// Removes `entity` with all its components and leaves its slot vacant for a
/// later entity. Does nothing if `entity` is not live. The identifier is
/// never handed out again.
pub fn destroy(context: &mut Context, entity: EntityId)
    requires
        old(context).wf(),
    ensures
        final(context).wf(),
        final(context)@ == old(context)@.remove(entity),
        final(context).world.allocation() == if old(context)@.dom().contains(entity) {
            old(context).world.allocation().destroying(entity.generation == u32::MAX)
        } else {
            old(context).world.allocation()
        },
        final(context).resources == old(context).resources,
{
    if !is_alive(context, entity) {
        assert(context.world@ =~= old(context).world@.remove(entity));
        return ;
    }
    proof {
        lemma_empty_mask();
    }
    let i = entity.index;
    context.world.camera[i] = None;
    context.world.global_transform[i] = None;
    context.world.lines[i] = None;
    context.world.local_transform[i] = None;
    context.world.name[i] = None;
    context.world.parent[i] = None;
    context.world.quads[i] = None;
    context.world.slots[i] = Slot { generation: entity.generation, live: false, mask: 0 };
    if entity.generation < u32::MAX {
        context.world.free.push(i);
    }
    context.world.population = context.world.population - 1;
    proof {
        assert(context.world@ =~= old(context).world@.remove(entity));
        assert(context.world.allocation().issued =~= old(context).world.allocation().issued);
    }
}

/// Gives `entity` a component of each kind in `kinds` that it lacks, at the
/// kind's initial value. A component that `entity` already has keeps its
/// value. Does nothing if `entity` is not live.
pub fn add_components(context: &mut Context, entity: EntityId, kinds: u32)
    requires
        old(context).wf(),
    ensures
        final(context).wf(),
        final(context)@ == if old(context)@.dom().contains(entity) {
            old(context)@.insert(entity, old(context)@[entity].adding(kinds))
        } else {
            old(context)@
        },
        final(context).world.allocation() == old(context).world.allocation(),
        final(context).resources == old(context).resources,
{
    if !is_alive(context, entity) {
        return ;
    }
    let i = entity.index;
    let mask = context.world.slots[i].mask;
    proof {
        lemma_mask_algebra(mask, kinds);
    }
    if kinds & CAMERA != 0 && context.world.camera[i].is_none() {
        context.world.camera[i] = Some(Camera::default());
    }
    if kinds & GLOBAL_TRANSFORM != 0 && context.world.global_transform[i].is_none() {
        context.world.global_transform[i] = Some(GlobalTransform::default());
    }
    if kinds & LINES != 0 && context.world.lines[i].is_none() {
        context.world.lines[i] = Some(Lines::default());
    }
    if kinds & LOCAL_TRANSFORM != 0 && context.world.local_transform[i].is_none() {
        context.world.local_transform[i] = Some(LocalTransform::default());
    }
    if kinds & NAME != 0 && context.world.name[i].is_none() {
        context.world.name[i] = Some(Name::default());
    }
    if kinds & PARENT != 0 && context.world.parent[i].is_none() {
        context.world.parent[i] = Some(Parent::default());
    }
    if kinds & QUADS != 0 && context.world.quads[i].is_none() {
        context.world.quads[i] = Some(Quads::default());
    }
    context.world.slots[i] = Slot {
        generation: entity.generation,
        live: true,
        mask: mask | (kinds & ALL_COMPONENTS),
    };
    proof {
        let before = old(context).world;
        before.lemma_row_coherent(entity);
        before.lemma_row_replaced(context.world, entity, before@[entity].adding(kinds));
    }
}

/// Takes from `entity` its component of each kind in `kinds`. Does nothing if
/// `entity` is not live.
pub fn remove_components(context: &mut Context, entity: EntityId, kinds: u32)
    requires
        old(context).wf(),
    ensures
        final(context).wf(),
        final(context)@ == if old(context)@.dom().contains(entity) {
            old(context)@.insert(entity, old(context)@[entity].removing(kinds))
        } else {
            old(context)@
        },
        final(context).world.allocation() == old(context).world.allocation(),
        final(context).resources == old(context).resources,
{
    if !is_alive(context, entity) {
        return ;
    }
    let i = entity.index;
    let mask = context.world.slots[i].mask;
    proof {
        lemma_mask_algebra(mask, kinds);
    }
    if kinds & CAMERA != 0 {
        context.world.camera[i] = None;
    }
    if kinds & GLOBAL_TRANSFORM != 0 {
        context.world.global_transform[i] = None;
    }
    if kinds & LINES != 0 {
        context.world.lines[i] = None;
    }
    if kinds & LOCAL_TRANSFORM != 0 {
        context.world.local_transform[i] = None;
    }
    if kinds & NAME != 0 {
        context.world.name[i] = None;
    }
    if kinds & PARENT != 0 {
        context.world.parent[i] = None;
    }
    if kinds & QUADS != 0 {
        context.world.quads[i] = None;
    }
    context.world.slots[i] = Slot { generation: entity.generation, live: true, mask: mask & !kinds };
    proof {
        let before = old(context).world;
        before.lemma_row_coherent(entity);
        before.lemma_row_replaced(context.world, entity, before@[entity].removing(kinds));
    }
}

/// A component kind: a type of which the world holds one column.
pub trait Component: View + Sized {
    /// The mask bit of the kind.
    spec fn bit() -> u32;

    /// The value of this kind in `row`.
    spec fn of(row: Row) -> Option<Self::V>;

    /// `row` with the value of this kind replaced by `value`.
    spec fn put(row: Row, value: Option<Self::V>) -> Row;

    /// In a coherent row the mask has the bit of this kind exactly when the
    /// row holds a value of this kind; and a value put into a row is the
    /// value found there.
    proof fn lemma_kind(row: Row, value: Option<Self::V>)
        ensures
            row.coherent() ==> (has(row.mask, Self::bit()) <==> Self::of(row) is Some),
            Self::of(Self::put(row, value)) == value,
    ;

    /// The component of this kind that `entity` has, if it is live and has one.
    fn get(world: &World, entity: EntityId) -> (r: Option<&Self>)
        requires
            world.wf(),
        ensures
            match r {
                Some(c) => world@.dom().contains(entity) && Self::of(world@[entity]) == Some(c@),
                None => !world@.dom().contains(entity) || Self::of(world@[entity]) is None,
            },
    ;

    /// Mutable access to the component of this kind that `entity` has, if it
    /// is live and has one. What the caller writes through the reference is
    /// the only change to the world.
    fn get_mut(world: &mut World, entity: EntityId) -> (r: Option<&mut Self>)
        requires
            old(world).wf(),
        ensures
            final(world).wf(),
            final(world).allocation() == old(world).allocation(),
            match r {
                Some(c) => {
                    &&& old(world)@.dom().contains(entity)
                    &&& Self::of(old(world)@[entity]) == Some(c@)
                    &&& final(world)@ == old(world)@.insert(
                        entity,
                        Self::put(old(world)@[entity], Some(final(c)@)),
                    )
                },
                None => {
                    &&& !old(world)@.dom().contains(entity) || Self::of(old(world)@[entity]) is None
                    &&& final(world)@ == old(world)@
                },
            },
    ;
}

/// The cell of a live entity in a column.
fn cell<'a, T>(slots: &Vec<Slot>, column: &'a Vec<Option<T>>, entity: EntityId) -> (r: Option<&'a T>)
    requires
        column.len() == slots.len(),
    ensures
        match r {
            Some(c) => {
                &&& entity.index < slots.len()
                &&& slots[entity.index as int].live
                &&& slots[entity.index as int].generation == entity.generation
                &&& column[entity.index as int] == Some(*c)
            },
            None => !(entity.index < slots.len() && slots[entity.index as int].live
                && slots[entity.index as int].generation == entity.generation)
                || column[entity.index as int] is None,
        },
{
    if entity.index < slots.len() && slots[entity.index].live && slots[entity.index].generation
        == entity.generation {
        column[entity.index].as_ref()
    } else {
        None
    }
}

/// Mutable access to the cell of a live entity in a column.
fn cell_mut<'a, T>(slots: &Vec<Slot>, column: &'a mut Vec<Option<T>>, entity: EntityId) -> (r:
    Option<&'a mut T>)
    requires
        old(column).len() == slots.len(),
    ensures
        match r {
            Some(c) => {
                &&& entity.index < slots.len()
                &&& slots[entity.index as int].live
                &&& slots[entity.index as int].generation == entity.generation
                &&& old(column)[entity.index as int] == Some(*c)
                &&& final(column)@ == old(column)@.update(entity.index as int, Some(*final(c)))
            },
            None => {
                &&& !(entity.index < slots.len() && slots[entity.index as int].live
                    && slots[entity.index as int].generation == entity.generation)
                    || old(column)[entity.index as int] is None
                &&& final(column)@ == old(column)@
            },
        },
{
    if entity.index < slots.len() && slots[entity.index].live && slots[entity.index].generation
        == entity.generation {
        column[entity.index].as_mut()
    } else {
        None
    }
}

impl Component for Parent {
    open spec fn bit() -> u32 {
        PARENT
    }

    open spec fn of(row: Row) -> Option<Parent> {
        row.parent
    }

    open spec fn put(row: Row, value: Option<Parent>) -> Row {
        Row { parent: value, ..row }
    }

    proof fn lemma_kind(row: Row, value: Option<Self::V>) {
    }

    fn get(world: &World, entity: EntityId) -> (r: Option<&Self>) {
        cell(&world.slots, &world.parent, entity)
    }

    fn get_mut(world: &mut World, entity: EntityId) -> (r: Option<&mut Self>) {
        proof {
            world.lemma_values_changed(entity);
        }
        cell_mut(&world.slots, &mut world.parent, entity)
    }
}

impl Component for Camera {
    open spec fn bit() -> u32 {
        CAMERA
    }

    open spec fn of(row: Row) -> Option<Camera> {
        row.camera
    }

    open spec fn put(row: Row, value: Option<Camera>) -> Row {
        Row { camera: value, ..row }
    }

    proof fn lemma_kind(row: Row, value: Option<Self::V>) {
    }

    fn get(world: &World, entity: EntityId) -> (r: Option<&Self>) {
        cell(&world.slots, &world.camera, entity)
    }

    fn get_mut(world: &mut World, entity: EntityId) -> (r: Option<&mut Self>) {
        proof {
            world.lemma_values_changed(entity);
        }
        cell_mut(&world.slots, &mut world.camera, entity)
    }
}

impl Component for GlobalTransform {
    open spec fn bit() -> u32 {
        GLOBAL_TRANSFORM
    }

    open spec fn of(row: Row) -> Option<GlobalTransform> {
        row.global_transform
    }

    open spec fn put(row: Row, value: Option<GlobalTransform>) -> Row {
        Row { global_transform: value, ..row }
    }

    proof fn lemma_kind(row: Row, value: Option<Self::V>) {
    }

    fn get(world: &World, entity: EntityId) -> (r: Option<&Self>) {
        cell(&world.slots, &world.global_transform, entity)
    }

    fn get_mut(world: &mut World, entity: EntityId) -> (r: Option<&mut Self>) {
        proof {
            world.lemma_values_changed(entity);
        }
        cell_mut(&world.slots, &mut world.global_transform, entity)
    }
}

impl Component for Lines {
    open spec fn bit() -> u32 {
        LINES
    }

    open spec fn of(row: Row) -> Option<Seq<Line>> {
        row.lines
    }

    open spec fn put(row: Row, value: Option<Seq<Line>>) -> Row {
        Row { lines: value, ..row }
    }

    proof fn lemma_kind(row: Row, value: Option<Self::V>) {
    }

    fn get(world: &World, entity: EntityId) -> (r: Option<&Self>) {
        cell(&world.slots, &world.lines, entity)
    }

    fn get_mut(world: &mut World, entity: EntityId) -> (r: Option<&mut Self>) {
        proof {
            world.lemma_values_changed(entity);
        }
        cell_mut(&world.slots, &mut world.lines, entity)
    }
}

impl Component for LocalTransform {
    open spec fn bit() -> u32 {
        LOCAL_TRANSFORM
    }

    open spec fn of(row: Row) -> Option<LocalTransform> {
        row.local_transform
    }

    open spec fn put(row: Row, value: Option<LocalTransform>) -> Row {
        Row { local_transform: value, ..row }
    }

    proof fn lemma_kind(row: Row, value: Option<Self::V>) {
    }

    fn get(world: &World, entity: EntityId) -> (r: Option<&Self>) {
        cell(&world.slots, &world.local_transform, entity)
    }

    fn get_mut(world: &mut World, entity: EntityId) -> (r: Option<&mut Self>) {
        proof {
            world.lemma_values_changed(entity);
        }
        cell_mut(&world.slots, &mut world.local_transform, entity)
    }
}

impl Component for Name {
    open spec fn bit() -> u32 {
        NAME
    }

    open spec fn of(row: Row) -> Option<Seq<char>> {
        row.name
    }

    open spec fn put(row: Row, value: Option<Seq<char>>) -> Row {
        Row { name: value, ..row }
    }

    proof fn lemma_kind(row: Row, value: Option<Self::V>) {
    }

    fn get(world: &World, entity: EntityId) -> (r: Option<&Self>) {
        cell(&world.slots, &world.name, entity)
    }

    fn get_mut(world: &mut World, entity: EntityId) -> (r: Option<&mut Self>) {
        proof {
            world.lemma_values_changed(entity);
        }
        cell_mut(&world.slots, &mut world.name, entity)
    }
}

impl Component for Quads {
    open spec fn bit() -> u32 {
        QUADS
    }

    open spec fn of(row: Row) -> Option<Seq<Quad>> {
        row.quads
    }

    open spec fn put(row: Row, value: Option<Seq<Quad>>) -> Row {
        Row { quads: value, ..row }
    }

    proof fn lemma_kind(row: Row, value: Option<Self::V>) {
    }

    fn get(world: &World, entity: EntityId) -> (r: Option<&Self>) {
        cell(&world.slots, &world.quads, entity)
    }

    fn get_mut(world: &mut World, entity: EntityId) -> (r: Option<&mut Self>) {
        proof {
            world.lemma_values_changed(entity);
        }
        cell_mut(&world.slots, &mut world.quads, entity)
    }
}

/// The component of kind `T` that `entity` has. Absent when `entity` is not
/// live or has no such component.
pub fn get_component<T: Component>(context: &Context, entity: EntityId) -> (r: Option<&T>)
    requires
        context.wf(),
    ensures
        r is Some <==> context@.dom().contains(entity) && has(context@[entity].mask, T::bit()),
        match r {
            Some(c) => context@.dom().contains(entity) && T::of(context@[entity]) == Some(c@),
            None => !context@.dom().contains(entity) || T::of(context@[entity]) is None,
        },
{
    proof {
        if context@.dom().contains(entity) {
            lemma_mask_storage_coherence(*context, entity);
            T::lemma_kind(context@[entity], None);
        }
    }
    T::get(&context.world, entity)
}

/// Mutable access to the component of kind `T` that `entity` has. Absent when
/// `entity` is not live or has no such component. What the caller writes
/// through the reference is the only change to the context.
pub fn get_component_mut<T: Component>(context: &mut Context, entity: EntityId) -> (r: Option<
    &mut T,
>)
    requires
        old(context).wf(),
    ensures
        final(context).wf(),
        final(context).world.allocation() == old(context).world.allocation(),
        final(context).resources == old(context).resources,
        r is Some <==> old(context)@.dom().contains(entity) && has(
            old(context)@[entity].mask,
            T::bit(),
        ),
        match r {
            Some(c) => {
                &&& old(context)@.dom().contains(entity)
                &&& T::of(old(context)@[entity]) == Some(c@)
                &&& final(context)@ == old(context)@.insert(
                    entity,
                    T::put(old(context)@[entity], Some(final(c)@)),
                )
            },
            None => {
                &&& !old(context)@.dom().contains(entity) || T::of(old(context)@[entity]) is None
                &&& final(context)@ == old(context)@
            },
        },
{
    proof {
        if context@.dom().contains(entity) {
            lemma_mask_storage_coherence(*context, entity);
            T::lemma_kind(context@[entity], None);
        }
    }
    T::get_mut(&mut context.world, entity)
}

/// The number of live entities.
pub fn entity_count(context: &Context) -> (n: usize)
    requires
        context.wf(),
    ensures
        context@.dom().finite(),
        n == context@.dom().len(),
{
    context.world.population
}

/// The number of slots of the entity table, which lies above the slot index
/// of every live entity.
pub fn capacity(context: &Context) -> (n: usize)
    ensures
        n == context.world.allocation().slots,
        forall|e: EntityId| context@.dom().contains(e) ==> e.index < n,
{
    context.world.slots.len()
}

/// The live entity whose identifier has the slot index `index`; there is at
/// most one.
pub fn occupant(context: &Context, index: usize) -> (r: Option<EntityId>)
    ensures
        match r {
            Some(id) => id.index == index && context@.dom().contains(id),
            None => true,
        },
        forall|e: EntityId| context@.dom().contains(e) && e.index == index ==> r == Some(e),
{
    if index < context.world.slots.len() && context.world.slots[index].live {
        Some(EntityId { index, generation: context.world.slots[index].generation })
    } else {
        None
    }
}

/// The stored mask of `entity`, or the empty mask if `entity` is not live.
pub fn mask_of(context: &Context, entity: EntityId) -> (mask: u32)
    ensures
        mask == if context@.dom().contains(entity) {
            context@[entity].mask
        } else {
            0
        },
{
    if is_alive(context, entity) {
        context.world.slots[entity.index].mask
    } else {
        0
    }
}

/// For every live entity, the stored mask has the bit of a kind exactly when
/// the column of that kind holds a value for the entity.
pub proof fn lemma_mask_storage_coherence(context: Context, entity: EntityId)
    requires
        context.wf(),
        context@.dom().contains(entity),
    ensures
        context@[entity].coherent(),
{
    context.world.lemma_row_coherent(entity);
}

/// A live entity carries an identifier that was handed out, and the live
/// entities are finitely many.
pub proof fn lemma_live_entities(context: Context)
    requires
        context.wf(),
    ensures
        context@.dom().finite(),
        forall|e: EntityId| context@.dom().contains(e) ==> context.world.issued(e),
{
}

/// Two live entities do not share a slot index.
pub proof fn lemma_index_unique(context: Context, a: EntityId, b: EntityId)
    requires
        context@.dom().contains(a),
        context@.dom().contains(b),
        a.index == b.index,
    ensures
        a == b,
{
}

/// Masks that absorb what they already include.
proof fn lemma_mask_absorbs(m: u32, k: u32)
    by (bit_vector)
    ensures
        (m | (k & 0x7f)) | (k & 0x7f) == m | (k & 0x7f),
        m & !0x7fu32 == 0 && m & k == k ==> m | (k & 0x7f) == m,
        m & k == k && k & 0x01 != 0 ==> m & 0x01 != 0,
        m & k == k && k & 0x02 != 0 ==> m & 0x02 != 0,
        m & k == k && k & 0x04 != 0 ==> m & 0x04 != 0,
        m & k == k && k & 0x08 != 0 ==> m & 0x08 != 0,
        m & k == k && k & 0x10 != 0 ==> m & 0x10 != 0,
        m & k == k && k & 0x20 != 0 ==> m & 0x20 != 0,
        m & k == k && k & 0x40 != 0 ==> m & 0x40 != 0,
{
}

/// Adding a kind that a row already has keeps the value of that kind; adding
/// the same kinds twice is adding them once; and adding kinds that a coherent
/// row has already leaves the row as it is.
pub proof fn lemma_add_idempotent(row: Row, kinds: u32)
    ensures
        row.camera is Some ==> row.adding(kinds).camera == row.camera,
        row.global_transform is Some ==> row.adding(kinds).global_transform == row.global_transform,
        row.lines is Some ==> row.adding(kinds).lines == row.lines,
        row.local_transform is Some ==> row.adding(kinds).local_transform == row.local_transform,
        row.name is Some ==> row.adding(kinds).name == row.name,
        row.parent is Some ==> row.adding(kinds).parent == row.parent,
        row.quads is Some ==> row.adding(kinds).quads == row.quads,
        row.adding(kinds).adding(kinds) == row.adding(kinds),
        row.coherent() && crate::mask::includes(row.mask, kinds) ==> row.adding(kinds) == row,
{
    lemma_mask_absorbs(row.mask, kinds);
}

} // verus!
