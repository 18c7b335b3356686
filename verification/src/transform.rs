//! Local and global transforms.

use vstd::prelude::*;
use vstd::set_lib::lemma_len_subset;
use nalgebra_glm::{Mat4, Quat, Vec3};
use crate::context::{
    entity_count, get_component, get_component_mut, lemma_mask_storage_coherence, Context, Row,
};
use crate::entity::EntityId;
use crate::linear::{
    axis, axis_of, diagonal, diagonal_of, identity, multiply, negate, negated, normalize,
    normalized, product, quat, quat_of, quat_to_mat4, rotation_of, scaling, scaling_of,
    translation, translation_of, vec3, vec3_of,
};
use crate::mask::{GLOBAL_TRANSFORM, LOCAL_TRANSFORM};
use crate::query::{query_entities, selects};
use crate::tree::{ancestor, Parent};

verus! {

/// Position, orientation and scale of an entity relative to its parent, or to
/// the world when it has none.
#[derive(Debug, Copy, Clone, PartialEq)]
pub struct LocalTransform {
    pub translation: Vec3,
    pub rotation: Quat,
    pub scale: Vec3,
}

impl LocalTransform {
    /// No translation, no rotation, unit scale.
    pub open spec fn initial() -> Self {
        LocalTransform {
            translation: vec3_of(0, 0, 0),
            rotation: quat_of(0, 0, 0, 1),
            scale: vec3_of(1, 1, 1),
        }
    }

    /// Translation times rotation times scale, grouped from the left.
    pub open spec fn matrix(self) -> Mat4 {
        product(
            product(translation_of(self.translation), rotation_of(normalized(self.rotation))),
            scaling_of(self.scale),
        )
    }

    /// The matrix of this transform: translation, then the rotation of the
    /// normalised quaternion, then scale, multiplied in that order.
    pub fn as_matrix(&self) -> (m: Mat4)
        ensures
            m == self.matrix(),
    {
        let t = translation(&self.translation);
        let r = quat_to_mat4(&normalize(&self.rotation));
        let s = scaling(&self.scale);
        multiply(&multiply(&t, &r), &s)
    }

    /// The direction that the transform maps the x axis to.
    pub fn right_vector(&self) -> (v: Vec3)
        ensures
            v == axis_of(self.matrix(), 0),
    {
        extract_right_vector(&self.as_matrix())
    }

    /// The direction that the transform maps the y axis to.
    pub fn up_vector(&self) -> (v: Vec3)
        ensures
            v == axis_of(self.matrix(), 1),
    {
        extract_up_vector(&self.as_matrix())
    }

    /// The direction opposite to the one that the transform maps the z axis to.
    pub fn forward_vector(&self) -> (v: Vec3)
        ensures
            v == negated(axis_of(self.matrix(), 2)),
    {
        extract_forward_vector(&self.as_matrix())
    }
}

fn extract_right_vector(transform: &Mat4) -> (v: Vec3)
    ensures
        v == axis_of(*transform, 0),
{
    axis(transform, 0)
}

fn extract_up_vector(transform: &Mat4) -> (v: Vec3)
    ensures
        v == axis_of(*transform, 1),
{
    axis(transform, 1)
}

fn extract_forward_vector(transform: &Mat4) -> (v: Vec3)
    ensures
        v == negated(axis_of(*transform, 2)),
{
    negate(&axis(transform, 2))
}

impl Default for LocalTransform {
    fn default() -> (transform: Self)
        ensures
            transform == Self::initial(),
    {
        LocalTransform { translation: vec3(0, 0, 0), rotation: quat(0, 0, 0, 1), scale: vec3(1, 1, 1) }
    }
}

impl View for LocalTransform {
    type V = LocalTransform;

    open spec fn view(&self) -> LocalTransform {
        *self
    }
}

/// The world-space matrix of an entity, derived from the local transforms of
/// the entity and its ancestors.
#[derive(Debug, Copy, Clone, PartialEq)]
pub struct GlobalTransform(pub Mat4);

impl GlobalTransform {
    /// The zero matrix, which a global transform holds until it is first derived.
    pub open spec fn initial() -> Self {
        GlobalTransform(diagonal_of(0))
    }

    /// The direction that the transform maps the x axis to.
    pub fn right_vector(&self) -> (v: Vec3)
        ensures
            v == axis_of(self.0, 0),
    {
        extract_right_vector(&self.0)
    }

    /// The direction that the transform maps the y axis to.
    pub fn up_vector(&self) -> (v: Vec3)
        ensures
            v == axis_of(self.0, 1),
    {
        extract_up_vector(&self.0)
    }

    /// The direction opposite to the one that the transform maps the z axis to.
    pub fn forward_vector(&self) -> (v: Vec3)
        ensures
            v == negated(axis_of(self.0, 2)),
    {
        extract_forward_vector(&self.0)
    }
}

impl Default for GlobalTransform {
    fn default() -> (transform: Self)
        ensures
            transform == Self::initial(),
    {
        GlobalTransform(diagonal(0))
    }
}

impl View for GlobalTransform {
    type V = GlobalTransform;

    open spec fn view(&self) -> GlobalTransform {
        *self
    }
}

/// The world matrix of `e`, following at most `links` parent links.
///
/// An entity with a local transform has its parent's world matrix times its
/// own local matrix, or its local matrix alone when it has no parent. An
/// entity without a local transform adds nothing of its own: it has the world
/// matrix of its parent, or the identity when it has no parent. An entity
/// that is not live has the identity. Where `links` runs out, the identity
/// stands for the rest of the chain.
pub open spec fn matrix_within(world: Map<EntityId, Row>, e: EntityId, links: nat) -> Mat4
    decreases links,
{
    if links == 0 || !world.dom().contains(e) {
        identity()
    } else {
        match (world[e].local_transform, world[e].parent) {
            (Some(l), Some(p)) => product(
                matrix_within(world, p.0, (links - 1) as nat),
                l.matrix(),
            ),
            (Some(l), None) => l.matrix(),
            (None, Some(p)) => matrix_within(world, p.0, (links - 1) as nat),
            (None, None) => identity(),
        }
    }
}

/// The world matrix of `e`. The chain of ancestors is followed for as many
/// links as the world has live entities, which is the whole chain unless the
/// parent links close a cycle.
pub open spec fn world_matrix(world: Map<EntityId, Row>, e: EntityId) -> Mat4 {
    matrix_within(world, e, world.dom().len())
}

/// `base` multiplied from the right by the matrices of `locals`, last first.
spec fn applied(base: Mat4, locals: Seq<Mat4>) -> Mat4
    decreases locals.len(),
{
    if locals.len() == 0 {
        base
    } else {
        applied(product(base, locals.last()), locals.drop_last())
    }
}

/// Two worlds have the same entities, local transforms and parents.
pub open spec fn same_hierarchy(a: Map<EntityId, Row>, b: Map<EntityId, Row>) -> bool {
    &&& a.dom() == b.dom()
    &&& forall|e: EntityId|
        a.dom().contains(e) ==> a[e].local_transform == b[e].local_transform && a[e].parent
            == b[e].parent
}

/// World matrices depend on entities, local transforms and parents only.
pub proof fn lemma_matrix_reads_hierarchy(
    a: Map<EntityId, Row>,
    b: Map<EntityId, Row>,
    e: EntityId,
    links: nat,
)
    requires
        same_hierarchy(a, b),
    ensures
        matrix_within(a, e, links) == matrix_within(b, e, links),
    decreases links,
{
    if links > 0 && a.dom().contains(e) {
        match a[e].parent {
            Some(p) => lemma_matrix_reads_hierarchy(a, b, p.0, (links - 1) as nat),
            None => {},
        }
    }
}

/// The world matrix of `entity`, computed from the local transforms of the
/// entity and its ancestors up to the root. An entity on the way that has no
/// local transform is passed over.
pub fn query_global_transform(context: &Context, entity: EntityId) -> (matrix: Mat4)
    requires
        context.wf(),
    ensures
        matrix == world_matrix(context@, entity),
{
    let bound = entity_count(context);
    let mut locals: Vec<Mat4> = Vec::new();
    let mut current = entity;
    let mut steps: usize = 0;
    let mut top = diagonal(1);
    let mut settled = false;
    while !settled && steps < bound
        invariant
            context.wf(),
            bound == context@.dom().len(),
            steps <= bound,
            world_matrix(context@, entity) == applied(
                matrix_within(context@, current, (bound - steps) as nat),
                locals@,
            ),
            settled ==> top == matrix_within(context@, current, (bound - steps) as nat),
            !settled ==> top == identity(),
        decreases (if settled { 0int } else { 1int }), bound - steps,
    {
        let parent = get_component::<Parent>(context, current);
        match get_component::<LocalTransform>(context, current) {
            Some(local) => {
                let own = local.as_matrix();
                match parent {
                    Some(parent) => {
                        proof {
                            assert(locals@.push(own).drop_last() =~= locals@);
                        }
                        locals.push(own);
                        current = parent.0;
                        steps = steps + 1;
                    },
                    None => {
                        top = own;
                        settled = true;
                    },
                }
            },
            None => {
                match parent {
                    Some(parent) => {
                        current = parent.0;
                        steps = steps + 1;
                    },
                    None => {
                        settled = true;
                    },
                }
            },
        }
    }
    let mut matrix = top;
    while locals.len() > 0
        invariant
            world_matrix(context@, entity) == applied(matrix, locals@),
        decreases locals.len(),
    {
        let own = locals.pop().unwrap();
        matrix = multiply(&matrix, &own);
    }
    matrix
}

/// The row of `e` after propagation: an entity that has both a local and a
/// global transform gets its world matrix as global transform.
pub open spec fn propagated_row(world: Map<EntityId, Row>, e: EntityId) -> Row {
    if world[e].local_transform is Some && world[e].global_transform is Some {
        Row { global_transform: Some(GlobalTransform(world_matrix(world, e))), ..world[e] }
    } else {
        world[e]
    }
}

/// The world after propagation.
pub open spec fn propagated(world: Map<EntityId, Row>) -> Map<EntityId, Row> {
    Map::new(|e: EntityId| world.dom().contains(e), |e: EntityId| propagated_row(world, e))
}

/// Having both transform bits is having both transforms.
proof fn lemma_both_transforms(mask: u32)
    by (bit_vector)
    ensures
        mask & 0x0a == 0x0a <==> mask & 0x08 != 0 && mask & 0x02 != 0,
        0x08u32 | 0x02u32 == 0x0au32,
{
}

/// Derives the global transform of every entity that has a local and a global
/// transform from the local transforms along its chain of ancestors.
pub fn update_global_transforms_system(context: &mut Context)
    requires
        old(context).wf(),
    ensures
        final(context).wf(),
        final(context)@ == propagated(old(context)@),
        final(context).world.allocation() == old(context).world.allocation(),
        final(context).resources == old(context).resources,
{
    proof {
        lemma_both_transforms(0);
    }
    let entities = query_entities(context, LOCAL_TRANSFORM | GLOBAL_TRANSFORM);
    let mut i: usize = 0;
    while i < entities.len()
        invariant
            old(context).wf(),
            context.wf(),
            i <= entities.len(),
            selects(old(context)@, 0x0a, entities@),
            context@.dom() == old(context)@.dom(),
            forall|e: EntityId|
                context@.dom().contains(e) ==> #[trigger] context@[e] == if exists|k: int|
                    0 <= k < i && entities[k] == e {
                    propagated_row(old(context)@, e)
                } else {
                    old(context)@[e]
                },
            context.world.allocation() == old(context).world.allocation(),
            context.resources == old(context).resources,
        decreases entities.len() - i,
    {
        let entity = entities[i];
        let ghost before = context@;
        proof {
            assert(entities@.contains(entity));
            lemma_mask_storage_coherence(*old(context), entity);
            lemma_both_transforms(old(context)@[entity].mask);
            assert(same_hierarchy(before, old(context)@));
            lemma_matrix_reads_hierarchy(before, old(context)@, entity, before.dom().len());
        }
        let matrix = query_global_transform(context, entity);
        match get_component_mut::<GlobalTransform>(context, entity) {
            Some(global) => {
                *global = GlobalTransform(matrix);
            },
            None => {},
        }
        proof {
            assert forall|e: EntityId| context@.dom().contains(e) implies #[trigger] context@[e]
                == if exists|k: int| 0 <= k < i + 1 && entities[k] == e {
                propagated_row(old(context)@, e)
            } else {
                old(context)@[e]
            } by {
                if e == entity {
                    assert(0 <= i < i + 1 && entities[i as int] == e);
                } else {
                    assert(context@[e] == before[e]);
                    if exists|k: int| 0 <= k < i + 1 && entities[k] == e {
                        let k = choose|k: int| 0 <= k < i + 1 && entities[k] == e;
                        assert(0 <= k < i && entities[k] == e);
                    }
                }
            }
        }
        i = i + 1;
    }
    proof {
        assert forall|e: EntityId| context@.dom().contains(e) implies context@[e]
            == propagated_row(old(context)@, e) by {
            lemma_mask_storage_coherence(*old(context), e);
            lemma_both_transforms(old(context)@[e].mask);
            if old(context)@[e].local_transform is Some && old(context)@[e].global_transform
                is Some {
                assert(entities@.contains(e));
                let k = choose|k: int| 0 <= k < entities.len() && entities[k] == e;
                assert(0 <= k < i && entities[k] == e);
            } else {
                if exists|k: int| 0 <= k < i && entities[k] == e {
                    let k = choose|k: int| 0 <= k < i && entities[k] == e;
                    assert(entities@.contains(e));
                }
            }
        }
        assert(context@ =~= propagated(old(context)@));
    }
}

/// In a chain of three entities, where the root has no parent, the child
/// hangs under the root and the grandchild under the child, the world matrix
/// of the root is its local matrix, and the world matrix of the grandchild is
/// the product of the three local matrices from the root down, grouped from
/// the left. Propagation stores these in the global transforms.
pub proof fn lemma_three_level_chain(
    world: Map<EntityId, Row>,
    root: EntityId,
    child: EntityId,
    grandchild: EntityId,
)
    requires
        world.dom().finite(),
        world.dom().contains(root),
        world.dom().contains(child),
        world.dom().contains(grandchild),
        world[root].local_transform is Some,
        world[child].local_transform is Some,
        world[grandchild].local_transform is Some,
        world[root].parent is None,
        world[child].parent == Some(Parent(root)),
        world[grandchild].parent == Some(Parent(child)),
    ensures
        world_matrix(world, root) == world[root].local_transform.unwrap().matrix(),
        world_matrix(world, child) == product(
            world[root].local_transform.unwrap().matrix(),
            world[child].local_transform.unwrap().matrix(),
        ),
        world_matrix(world, grandchild) == product(
            product(
                world[root].local_transform.unwrap().matrix(),
                world[child].local_transform.unwrap().matrix(),
            ),
            world[grandchild].local_transform.unwrap().matrix(),
        ),
        world[root].global_transform is Some ==> propagated(world)[root].global_transform == Some(
            GlobalTransform(world_matrix(world, root)),
        ),
        world[grandchild].global_transform is Some ==> propagated(
            world,
        )[grandchild].global_transform == Some(GlobalTransform(world_matrix(world, grandchild))),
{
    let three = Set::<EntityId>::empty().insert(root).insert(child).insert(grandchild);
    assert(three.len() == 3);
    assert(three.subset_of(world.dom()));
    lemma_len_subset(three, world.dom());
    reveal_with_fuel(matrix_within, 4);
}

/// An entity between two others that has no local transform leaves the
/// chain whole: where the root has no parent, the middle hangs under the
/// root and has no local transform, and the leaf hangs under the middle, the
/// world matrix of the leaf is the local matrix of the root times that of
/// the leaf, and the world matrix of the middle is that of the root.
pub proof fn lemma_chain_through_plain_entity(
    world: Map<EntityId, Row>,
    root: EntityId,
    middle: EntityId,
    leaf: EntityId,
)
    requires
        world.dom().finite(),
        world.dom().contains(root),
        world.dom().contains(middle),
        world.dom().contains(leaf),
        world[root].local_transform is Some,
        world[middle].local_transform is None,
        world[leaf].local_transform is Some,
        world[root].parent is None,
        world[middle].parent == Some(Parent(root)),
        world[leaf].parent == Some(Parent(middle)),
    ensures
        world_matrix(world, middle) == world[root].local_transform.unwrap().matrix(),
        world_matrix(world, leaf) == product(
            world[root].local_transform.unwrap().matrix(),
            world[leaf].local_transform.unwrap().matrix(),
        ),
{
    let three = Set::<EntityId>::empty().insert(root).insert(middle).insert(leaf);
    assert(three.len() == 3);
    assert(three.subset_of(world.dom()));
    lemma_len_subset(three, world.dom());
    reveal_with_fuel(matrix_within, 4);
}

/// Nothing is to be looked up for `e`: it is not live, or it has neither a
/// local transform nor a parent.
pub open spec fn bare(world: Map<EntityId, Row>, e: EntityId) -> bool {
    !world.dom().contains(e) || (world[e].local_transform is None && world[e].parent is None)
}

/// The chain of ancestors of `e` ends within `links` parent links: it reaches
/// an entity without a parent.
pub open spec fn chain_ends(world: Map<EntityId, Row>, e: EntityId, links: nat) -> bool
    decreases links,
{
    if bare(world, e) {
        true
    } else if links == 0 {
        false
    } else {
        match world[e].parent {
            Some(p) => chain_ends(world, p.0, (links - 1) as nat),
            None => true,
        }
    }
}

/// `links` is the least number of links within which the chain above `e` ends.
spec fn ends_exactly(world: Map<EntityId, Row>, e: EntityId, links: nat) -> bool {
    chain_ends(world, e, links) && forall|j: nat| j < links ==> !chain_ends(world, e, j)
}

/// Once the chain above `e` ends within `k` links, more links change nothing.
proof fn lemma_chain_stable(world: Map<EntityId, Row>, e: EntityId, k: nat, more: nat)
    requires
        chain_ends(world, e, k),
        k <= more,
    ensures
        chain_ends(world, e, more),
        matrix_within(world, e, k) == matrix_within(world, e, more),
    decreases k,
{
    if !bare(world, e) {
        match world[e].parent {
            Some(p) => lemma_chain_stable(world, p.0, (k - 1) as nat, (more - 1) as nat),
            None => {},
        }
    }
}

/// A chain that ends within `k` links ends exactly within some number of links.
proof fn lemma_chain_least(world: Map<EntityId, Row>, e: EntityId, k: nat) -> (least: nat)
    requires
        chain_ends(world, e, k),
    ensures
        ends_exactly(world, e, least),
    decreases k,
{
    if exists|j: nat| j < k && chain_ends(world, e, j) {
        let j = choose|j: nat| j < k && chain_ends(world, e, j);
        lemma_chain_least(world, e, j)
    } else {
        k
    }
}

/// Where the chain above `e` ends exactly within `k` links and the entity
/// has a parent to follow, the chain above the parent ends exactly within
/// `k - 1`.
proof fn lemma_chain_step(world: Map<EntityId, Row>, e: EntityId, k: nat)
    requires
        ends_exactly(world, e, k),
        k >= 2,
    ensures
        world.dom().contains(e),
        world[e].parent is Some,
        ends_exactly(world, world[e].parent.unwrap().0, (k - 1) as nat),
{
    assert(!chain_ends(world, e, 0));
    assert(!chain_ends(world, e, 1));
    let p = world[e].parent.unwrap().0;
    assert forall|j: nat| j < k - 1 implies !chain_ends(world, p, j) by {
        assert(!chain_ends(world, e, j + 1));
    }
}

/// Along a chain that ends exactly within `k` links, the entity reached
/// after `i < k` links starts a chain that ends exactly within `k - i`.
proof fn lemma_chain_suffix(world: Map<EntityId, Row>, e: EntityId, k: nat, i: nat)
    requires
        ends_exactly(world, e, k),
        i < k,
    ensures
        ancestor(world, e, i) is Some,
        ends_exactly(world, ancestor(world, e, i).unwrap(), (k - i) as nat),
    decreases i,
{
    if i > 0 {
        lemma_chain_step(world, e, k);
        let p = world[e].parent.unwrap().0;
        lemma_chain_suffix(world, p, (k - 1) as nat, (i - 1) as nat);
    }
}

/// A chain that ends, and whose live entities all lie in the finite set
/// `within`, ends within as many links as `within` has entities; and the
/// chain above the parent ends within one link less.
proof fn lemma_chain_bounded(
    world: Map<EntityId, Row>,
    e: EntityId,
    k: nat,
    within: Set<EntityId>,
)
    requires
        within.finite(),
        ends_exactly(world, e, k),
        forall|i: nat, x: EntityId|
            i < k && ancestor(world, e, i) == Some(x) && world.dom().contains(x)
                ==> within.contains(x),
    ensures
        chain_ends(world, e, within.len()),
        world.dom().contains(e) && world[e].parent is Some ==> within.len() > 0 && chain_ends(
            world,
            world[e].parent.unwrap().0,
            (within.len() - 1) as nat,
        ),
    decreases k,
{
    if !bare(world, e) {
        assert(!chain_ends(world, e, 0));
        assert(ancestor(world, e, 0) == Some(e));
        assert(within.contains(e));
        assert(within.len() > 0) by {
            if within.len() == 0 {
                assert(within =~= Set::<EntityId>::empty());
            }
        }
        match world[e].parent {
            Some(parent) => {
                let p = parent.0;
                if k >= 2 {
                    lemma_chain_step(world, e, k);
                } else {
                    assert(chain_ends(world, p, 0));
                    assert(ends_exactly(world, p, 0));
                }
                let rest = within.remove(e);
                assert forall|i: nat, x: EntityId|
                    i < k - 1 && ancestor(world, p, i) == Some(x) && world.dom().contains(
                        x,
                    ) implies rest.contains(x) by {
                    assert(ancestor(world, e, i + 1) == ancestor(world, p, i));
                    assert(within.contains(x));
                    if x == e {
                        lemma_chain_suffix(world, e, k, i + 1);
                        assert(chain_ends(world, e, (k - (i + 1)) as nat));
                    }
                }
                lemma_chain_bounded(world, p, (k - 1) as nat, rest);
            },
            None => {},
        }
    }
}

/// The world matrix of an entity whose chain of ancestors ends obeys the
/// recursive definition: the world matrix of the parent times the local
/// matrix, where an entity without a parent has its local matrix alone, an
/// entity without a local transform the world matrix of its parent, and an
/// entity with neither, or one that is not live, the identity.
pub proof fn lemma_world_matrix_unfolds(world: Map<EntityId, Row>, e: EntityId)
    requires
        world.dom().finite(),
        exists|k: nat| chain_ends(world, e, k),
    ensures
        world_matrix(world, e) == if !world.dom().contains(e) {
            identity()
        } else {
            match (world[e].local_transform, world[e].parent) {
                (Some(l), Some(p)) => product(world_matrix(world, p.0), l.matrix()),
                (Some(l), None) => l.matrix(),
                (None, Some(p)) => world_matrix(world, p.0),
                (None, None) => identity(),
            }
        },
{
    let some = choose|k: nat| chain_ends(world, e, k);
    let k = lemma_chain_least(world, e, some);
    lemma_chain_bounded(world, e, k, world.dom());
    if world.dom().contains(e) {
        match world[e].parent {
            Some(p) => {
                lemma_chain_stable(
                    world,
                    p.0,
                    (world.dom().len() - 1) as nat,
                    world.dom().len(),
                );
            },
            None => {},
        }
    }
}

} // verus!
