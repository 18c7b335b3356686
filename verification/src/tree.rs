//! Names and the parent/child hierarchy.

use vstd::prelude::*;
use vstd::set_lib::lemma_len_subset;
use crate::context::{
    capacity, entity_count, get_component, is_alive, lemma_index_unique,
    lemma_mask_storage_coherence, Context, Row,
};
use crate::entity::EntityId;
use crate::mask::{lemma_single_kind, LOCAL_TRANSFORM, PARENT};
use crate::query::{
    lemma_ordered_unique, lemma_picks_all, lemma_picks_next, ordered, picks, query_entities,
};

verus! {

/// The name component.
#[derive(Debug, Clone)]
pub struct Name(pub String);

impl View for Name {
    type V = Seq<char>;

    open spec fn view(&self) -> Seq<char> {
        self.0@
    }
}

impl Default for Name {
    fn default() -> (name: Self)
        ensures
            name@ == Seq::<char>::empty(),
    {
        Name(String::new())
    }
}

/// The parent component: the entity that the owner hangs under.
#[derive(Debug, Copy, Clone, PartialEq, Eq, Structural)]
pub struct Parent(pub EntityId);

impl View for Parent {
    type V = Parent;

    open spec fn view(&self) -> Parent {
        *self
    }
}

impl Default for Parent {
    fn default() -> (parent: Self)
        ensures
            parent == Parent(EntityId { index: 0, generation: 0 }),
    {
        Parent(EntityId::default())
    }
}

/// The entity that `e` names as its parent, if `e` is live and has a parent
/// component. The parent need not be live.
pub open spec fn parent_of(world: Map<EntityId, Row>, e: EntityId) -> Option<EntityId> {
    if world.dom().contains(e) {
        match world[e].parent {
            Some(p) => Some(p.0),
            None => None,
        }
    } else {
        None
    }
}

/// The entity reached from `e` by following `k` parent links, if the chain is
/// that long.
pub open spec fn ancestor(world: Map<EntityId, Row>, e: EntityId, k: nat) -> Option<EntityId>
    decreases k,
{
    if k == 0 {
        Some(e)
    } else {
        match parent_of(world, e) {
            Some(p) => ancestor(world, p, (k - 1) as nat),
            None => None,
        }
    }
}

/// `e` is `a` or lies below `a`: following parent links from `e` reaches `a`.
pub open spec fn descends(world: Map<EntityId, Row>, e: EntityId, a: EntityId) -> bool {
    exists|k: nat| ancestor(world, e, k) == Some(a)
}

/// Following `i + j` links is following `i` links and then `j` more.
pub proof fn lemma_ancestor_add(world: Map<EntityId, Row>, e: EntityId, i: nat, j: nat)
    ensures
        ancestor(world, e, i + j) == match ancestor(world, e, i) {
            Some(m) => ancestor(world, m, j),
            None => None,
        },
    decreases i,
{
    if i > 0 {
        match parent_of(world, e) {
            Some(p) => {
                lemma_ancestor_add(world, p, (i - 1) as nat, j);
                assert((i + j - 1) as nat == (i - 1) as nat + j);
            },
            None => {},
        }
    }
}

/// The `k` entities at the start of a shortest chain from `e` to `a`.
spec fn chain(world: Map<EntityId, Row>, e: EntityId, k: nat) -> Seq<EntityId> {
    Seq::new(k, |i: int| ancestor(world, e, i as nat).unwrap())
}

/// A shortest chain from `e` to `a` has no more links than there are live
/// entities.
proof fn lemma_shortest_chain(world: Map<EntityId, Row>, e: EntityId, a: EntityId, k: nat)
    requires
        world.dom().finite(),
        ancestor(world, e, k) == Some(a),
        forall|i: nat| i < k ==> ancestor(world, e, i) != Some(a),
    ensures
        k <= world.dom().len(),
{
    let s = chain(world, e, k);
    assert forall|i: int| 0 <= i < k implies ancestor(world, e, i as nat) is Some && world.dom().contains(
        #[trigger] s[i],
    ) by {
        lemma_ancestor_add(world, e, i as nat, (k - i) as nat);
        assert(i as nat + (k - i) as nat == k);
    }
    assert forall|i: int, j: int| 0 <= i < s.len() && 0 <= j < s.len() && i != j implies s[i]
        != s[j] by {
        if s[i] == s[j] {
            let (lo, hi) = if i < j {
                (i, j)
            } else {
                (j, i)
            };
            let rest = (k - hi) as nat;
            lemma_ancestor_add(world, e, hi as nat, rest);
            lemma_ancestor_add(world, e, lo as nat, rest);
            assert(hi as nat + rest == k);
            assert(ancestor(world, e, lo as nat + rest) == Some(a));
            assert(lo as nat + rest < k);
        }
    }
    s.unique_seq_to_set();
    assert(s.to_set().subset_of(world.dom())) by {
        assert forall|x: EntityId| s.to_set().contains(x) implies world.dom().contains(x) by {
            let i = choose|i: int| 0 <= i < s.len() && s[i] == x;
            assert(world.dom().contains(s[i]));
        }
    }
    lemma_len_subset(s.to_set(), world.dom());
}

/// If `a` is reached from `e` in `k` links, it is reached in at most as many
/// links as there are live entities.
pub proof fn lemma_reach_bounded(world: Map<EntityId, Row>, e: EntityId, a: EntityId, k: nat)
    requires
        world.dom().finite(),
        ancestor(world, e, k) == Some(a),
    ensures
        exists|m: nat| m <= world.dom().len() && ancestor(world, e, m) == Some(a),
    decreases k,
{
    if exists|i: nat| i < k && ancestor(world, e, i) == Some(a) {
        let i = choose|i: nat| i < k && ancestor(world, e, i) == Some(a);
        lemma_reach_bounded(world, e, a, i);
    } else {
        lemma_shortest_chain(world, e, a, k);
    }
}

/// `s` lists, by increasing slot index, exactly the live entities whose
/// parent component names `x`.
pub open spec fn lists_children(world: Map<EntityId, Row>, x: EntityId, s: Seq<EntityId>) -> bool {
    ordered(s) && forall|e: EntityId| s.contains(e) <==> parent_of(world, e) == Some(x)
}

/// The children of `x`: the live entities whose parent component names `x`,
/// by increasing slot index.
pub open spec fn children_of(world: Map<EntityId, Row>, x: EntityId) -> Seq<EntityId> {
    choose|s: Seq<EntityId>| lists_children(world, x, s)
}

/// The live entities whose parent component names `target`, by increasing
/// slot index.
pub fn query_children(context: &Context, target: EntityId) -> (children: Vec<EntityId>)
    requires
        context.wf(),
    ensures
        lists_children(context@, target, children@),
        children@ == children_of(context@, target),
{
    let candidates = query_entities(context, PARENT);
    let ghost keep = |e: EntityId| parent_of(context@, e) == Some(target);
    let mut children: Vec<EntityId> = Vec::new();
    let mut i: usize = 0;
    while i < candidates.len()
        invariant
            context.wf(),
            i <= candidates.len(),
            ordered(candidates@),
            keep == |e: EntityId| parent_of(context@, e) == Some(target),
            picks(candidates@, i as int, keep, children@),
        decreases candidates.len() - i,
    {
        let entity = candidates[i];
        proof {
            lemma_picks_next(candidates@, i as int, keep, children@);
        }
        let named = match get_component::<Parent>(context, entity) {
            Some(parent) => parent.0 == target,
            None => false,
        };
        if named {
            children.push(entity);
        }
        i = i + 1;
    }
    proof {
        lemma_picks_all(candidates@, keep, children@);
        assert forall|e: EntityId| parent_of(context@, e) == Some(target) implies candidates@.contains(
            e,
        ) by {
            lemma_mask_storage_coherence(*context, e);
            lemma_single_kind(context@[e].mask);
        }
        assert(lists_children(context@, target, children@));
        lemma_ordered_unique(children@, children_of(context@, target));
    }
    children
}

/// Whether `entity` is `ancestor` or lies below it in the hierarchy.
///
/// The walk up the parent chain stops after as many links as there are live
/// entities, which a chain that reaches `ancestor` never needs more than.
pub fn is_descendant_of(context: &Context, entity: EntityId, ancestor: EntityId) -> (found: bool)
    requires
        context.wf(),
    ensures
        found == descends(context@, entity, ancestor),
{
    if entity == ancestor {
        assert(self::ancestor(context@, entity, 0) == Some(ancestor));
        return true;
    }
    let bound = entity_count(context);
    let mut current = entity;
    let mut steps: usize = 0;
    while steps < bound
        invariant
            context.wf(),
            context@.dom().finite(),
            bound == context@.dom().len(),
            steps <= bound,
            self::ancestor(context@, entity, steps as nat) == Some(current),
            forall|k: nat| k <= steps ==> self::ancestor(context@, entity, k) != Some(ancestor),
        decreases bound - steps,
    {
        match get_component::<Parent>(context, current) {
            Some(parent) => {
                let next = parent.0;
                proof {
                    lemma_ancestor_add(context@, entity, steps as nat, 1);
                    assert(self::ancestor(context@, current, 1) == self::ancestor(
                        context@,
                        next,
                        0,
                    ));
                }
                if next == ancestor {
                    return true;
                }
                current = next;
                steps = steps + 1;
            },
            None => {
                proof {
                    assert forall|k: nat| self::ancestor(context@, entity, k) != Some(
                        ancestor,
                    ) by {
                        if k > steps {
                            lemma_ancestor_add(context@, entity, steps as nat, (k - steps) as nat);
                            assert(steps as nat + (k - steps) as nat == k);
                        }
                    }
                }
                return false;
            },
        }
    }
    proof {
        if descends(context@, entity, ancestor) {
            let k = choose|k: nat| self::ancestor(context@, entity, k) == Some(ancestor);
            lemma_reach_bounded(context@, entity, ancestor, k);
        }
    }
    false
}

/// The entities of `children` that are not in `seen`, in their order.
pub open spec fn unseen(children: Seq<EntityId>, seen: Seq<EntityId>) -> Seq<EntityId>
    decreases children.len(),
{
    if children.len() == 0 {
        Seq::empty()
    } else {
        let rest = unseen(children.drop_last(), seen);
        if seen.contains(children.last()) {
            rest
        } else {
            rest.push(children.last())
        }
    }
}

/// What a walk collects in at most `steps` steps, given the entities `done`
/// that it has collected and the entities `stack` that it has yet to expand.
/// A step collects the entity on top of the stack and puts in its place those
/// of its children that the walk has not met.
pub open spec fn walk(
    world: Map<EntityId, Row>,
    done: Seq<EntityId>,
    stack: Seq<EntityId>,
    steps: nat,
) -> Seq<EntityId>
    decreases steps,
{
    if steps == 0 || stack.len() == 0 {
        done
    } else {
        walk(
            world,
            done.push(stack.last()),
            stack.drop_last() + unseen(children_of(world, stack.last()), done + stack),
            (steps - 1) as nat,
        )
    }
}

/// The entities at and below `target` in the order of a depth-first walk
/// that takes the children of an entity from the highest slot index down.
pub open spec fn depth_first(world: Map<EntityId, Row>, target: EntityId) -> Seq<EntityId> {
    walk(world, Seq::empty(), seq![target], world.dom().len() + 1)
}

/// Every child of an entity of `done` is in `all`.
spec fn covers_children(world: Map<EntityId, Row>, done: Seq<EntityId>, all: Seq<EntityId>) -> bool {
    forall|c: EntityId|
        (#[trigger] parent_of(world, c)) is Some && done.contains(parent_of(world, c).unwrap())
            ==> all.contains(c)
}

/// The state of a walk below `target`: `done` holds the entities already
/// collected, `stack` those still to expand, and `visited` marks the slot of
/// every live entity that is in either.
spec fn walking(
    world: Map<EntityId, Row>,
    target: EntityId,
    done: Seq<EntityId>,
    stack: Seq<EntityId>,
    visited: Seq<bool>,
) -> bool {
    let all = done + stack;
    &&& all.no_duplicates()
    &&& forall|e: EntityId| world.dom().contains(e) ==> e.index < visited.len()
    &&& forall|a: EntityId, b: EntityId|
        world.dom().contains(a) && world.dom().contains(b) && a.index == b.index ==> a == b
    &&& forall|e: EntityId|
        world.dom().contains(e) ==> (visited[e.index as int] <==> all.contains(e))
    &&& forall|x: EntityId|
        all.contains(x) ==> descends(world, x, target) && (x == target || world.dom().contains(x))
    &&& if done.len() == 0 {
        stack == seq![target]
    } else {
        done[0] == target
    }
}

/// Every collected entity but the first comes after its parent, and every
/// entity still to expand has its parent among the collected ones.
spec fn parents_first(world: Map<EntityId, Row>, done: Seq<EntityId>, stack: Seq<EntityId>) -> bool {
    &&& forall|i: int|
        0 < i < done.len() ==> exists|j: int|
            0 <= j < i && parent_of(world, #[trigger] done[i]) == Some(done[j])
    &&& done.len() > 0 ==> forall|k: int|
        0 <= k < stack.len() ==> exists|j: int|
            0 <= j < done.len() && parent_of(world, #[trigger] stack[k]) == Some(done[j])
}

/// Moving the top of the stack to the collected entities keeps parents first.
proof fn lemma_parents_first_collect(
    world: Map<EntityId, Row>,
    done: Seq<EntityId>,
    stack: Seq<EntityId>,
)
    requires
        parents_first(world, done, stack),
        stack.len() > 0,
        done.len() == 0 ==> stack.len() == 1,
    ensures
        parents_first(world, done.push(stack.last()), stack.drop_last()),
{
    let next = done.push(stack.last());
    let rest = stack.drop_last();
    assert forall|i: int| 0 < i < next.len() implies exists|j: int|
        0 <= j < i && parent_of(world, #[trigger] next[i]) == Some(next[j]) by {
        if i < done.len() {
            let j = choose|j: int| 0 <= j < i && parent_of(world, done[i]) == Some(done[j]);
            assert(next[j] == done[j]);
        } else {
            let k = stack.len() - 1;
            let j = choose|j: int|
                0 <= j < done.len() && parent_of(world, stack[k]) == Some(done[j]);
            assert(next[j] == done[j]);
        }
    }
    assert forall|k: int| 0 <= k < rest.len() implies exists|j: int|
        0 <= j < next.len() && parent_of(world, #[trigger] rest[k]) == Some(next[j]) by {
        let j = choose|j: int| 0 <= j < done.len() && parent_of(world, stack[k]) == Some(done[j]);
        assert(next[j] == done[j]);
    }
}

/// Pushing a child of the entity collected last keeps parents first.
proof fn lemma_parents_first_push(
    world: Map<EntityId, Row>,
    done: Seq<EntityId>,
    stack: Seq<EntityId>,
    child: EntityId,
)
    requires
        parents_first(world, done, stack),
        done.len() > 0,
        parent_of(world, child) == Some(done.last()),
    ensures
        parents_first(world, done, stack.push(child)),
{
    let next = stack.push(child);
    assert forall|k: int| 0 <= k < next.len() implies exists|j: int|
        0 <= j < done.len() && parent_of(world, #[trigger] next[k]) == Some(done[j]) by {
        if k < stack.len() {
            let j = choose|j: int|
                0 <= j < done.len() && parent_of(world, stack[k]) == Some(done[j]);
            assert(parent_of(world, next[k]) == Some(done[j]));
        } else {
            assert(parent_of(world, next[k]) == Some(done[done.len() - 1]));
        }
    }
}

/// A walk holds at most every live entity and the target.
proof fn lemma_walk_size(
    world: Map<EntityId, Row>,
    target: EntityId,
    done: Seq<EntityId>,
    stack: Seq<EntityId>,
    visited: Seq<bool>,
)
    requires
        world.dom().finite(),
        walking(world, target, done, stack, visited),
    ensures
        done.len() + stack.len() <= world.dom().len() + 1,
{
    let all = done + stack;
    all.unique_seq_to_set();
    let bound = world.dom().insert(target);
    assert(all.to_set().subset_of(bound)) by {
        assert forall|x: EntityId| all.to_set().contains(x) implies bound.contains(x) by {
            assert(all.contains(x));
        }
    }
    lemma_len_subset(all.to_set(), bound);
}

/// Moving the top of the stack to the collected entities keeps the walk.
proof fn lemma_walk_collect(
    world: Map<EntityId, Row>,
    target: EntityId,
    done: Seq<EntityId>,
    stack: Seq<EntityId>,
    visited: Seq<bool>,
)
    requires
        walking(world, target, done, stack, visited),
        stack.len() > 0,
    ensures
        walking(world, target, done.push(stack.last()), stack.drop_last(), visited),
        forall|x: EntityId|
            (done.push(stack.last()) + stack.drop_last()).contains(x) <==> (done + stack).contains(
                x,
            ),
{
    let all = done + stack;
    let next = done.push(stack.last()) + stack.drop_last();
    let d = done.len() as int;
    // position i of `next` is position `from(i)` of `all`
    let from = |i: int|
        if i < d {
            i
        } else if i == d {
            all.len() - 1
        } else {
            i - 1
        };
    assert forall|i: int| 0 <= i < next.len() implies next[i] == all[from(i)] by {}
    assert forall|i: int, j: int| 0 <= i < next.len() && 0 <= j < next.len() && i != j implies next[i]
        != next[j] by {
        assert(from(i) != from(j));
        assert(next[i] == all[from(i)]);
        assert(next[j] == all[from(j)]);
    }
    assert forall|x: EntityId| next.contains(x) <==> all.contains(x) by {
        if next.contains(x) {
            let i = choose|i: int| 0 <= i < next.len() && next[i] == x;
            assert(all[from(i)] == x);
        }
        if all.contains(x) {
            let i = choose|i: int| 0 <= i < all.len() && all[i] == x;
            let j = if i < d {
                i
            } else if i == all.len() - 1 {
                d
            } else {
                i + 1
            };
            assert(next[j] == all[from(j)]);
            assert(next[j] == x);
        }
    }
    if done.len() == 0 {
        assert(stack.last() == target);
    }
    assert(done.push(stack.last())[0] == target);
}

/// Pushing a live, unvisited entity that lies below the target keeps the walk.
proof fn lemma_walk_push(
    world: Map<EntityId, Row>,
    target: EntityId,
    done: Seq<EntityId>,
    stack: Seq<EntityId>,
    visited: Seq<bool>,
    child: EntityId,
)
    requires
        walking(world, target, done, stack, visited),
        done.len() > 0,
        world.dom().contains(child),
        !visited[child.index as int],
        descends(world, child, target),
    ensures
        walking(
            world,
            target,
            done,
            stack.push(child),
            visited.update(child.index as int, true),
        ),
        forall|x: EntityId|
            (done + stack.push(child)).contains(x) <==> (done + stack).contains(x) || x == child,
{
    let all = done + stack;
    let next = done + stack.push(child);
    assert(next =~= all.push(child));
    assert(!all.contains(child));
    assert forall|x: EntityId| next.contains(x) <==> all.contains(x) || x == child by {
        if next.contains(x) {
            let i = choose|i: int| 0 <= i < next.len() && next[i] == x;
            if i < all.len() {
                assert(all[i] == x);
            }
        }
        if all.contains(x) {
            let i = choose|i: int| 0 <= i < all.len() && all[i] == x;
            assert(next[i] == x);
        }
        if x == child {
            assert(next[all.len() as int] == x);
        }
    }
    assert forall|i: int, j: int| 0 <= i < next.len() && 0 <= j < next.len() && i != j implies next[i]
        != next[j] by {
        if i == all.len() {
            assert(all.contains(all[j]));
        } else if j == all.len() {
            assert(all.contains(all[i]));
        }
    }
}

/// A set of entities that holds `target` and every child of its members
/// holds every entity below `target`.
proof fn lemma_walk_complete(
    world: Map<EntityId, Row>,
    target: EntityId,
    done: Seq<EntityId>,
    e: EntityId,
    k: nat,
)
    requires
        done.contains(target),
        covers_children(world, done, done),
        ancestor(world, e, k) == Some(target),
    ensures
        done.contains(e),
    decreases k,
{
    if k > 0 {
        let p = parent_of(world, e).unwrap();
        lemma_walk_complete(world, target, done, p, (k - 1) as nat);
        assert(parent_of(world, e) == Some(p));
    }
}

/// `target` followed by every entity below it, each once and each after its
/// parent.
///
/// The entities are collected depth first. An entity is expanded once, so the
/// walk ends even where the parent links close a cycle.
pub fn query_descendents(context: &Context, target: EntityId) -> (descendents: Vec<EntityId>)
    requires
        context.wf(),
    ensures
        descendents@.no_duplicates(),
        descendents@.len() > 0,
        descendents@[0] == target,
        descendents@ == depth_first(context@, target),
        forall|e: EntityId| descendents@.contains(e) <==> descends(context@, e, target),
        forall|i: int|
            0 < i < descendents@.len() ==> exists|j: int|
                0 <= j < i && parent_of(context@, #[trigger] descendents@[i]) == Some(
                    descendents@[j],
                ),
{
    let n = capacity(context);
    let population = entity_count(context);
    let mut visited: Vec<bool> = Vec::new();
    while visited.len() < n
        invariant
            visited.len() <= n,
            forall|i: int| 0 <= i < visited.len() ==> !visited[i],
        decreases n - visited.len(),
    {
        visited.push(false);
    }
    if is_alive(context, target) {
        visited[target.index] = true;
    }
    let mut descendents: Vec<EntityId> = Vec::new();
    let mut stack: Vec<EntityId> = Vec::new();
    stack.push(target);
    proof {
        assert(ancestor(context@, target, 0) == Some(target));
        assert forall|a: EntityId, b: EntityId|
            context@.dom().contains(a) && context@.dom().contains(b) && a.index
                == b.index implies a == b by {
            lemma_index_unique(*context, a, b);
        }
        let all = descendents@ + stack@;
        assert(all =~= seq![target]);
        assert forall|e: EntityId| context@.dom().contains(e) implies (visited[e.index as int]
            <==> all.contains(e)) by {
            if all.contains(e) {
                assert(e == target);
            }
            if visited[e.index as int] {
                assert(e.index == target.index);
                assert(all[0] == e);
            }
        }
    }
    while stack.len() > 0
        invariant
            context.wf(),
            context@.dom().finite(),
            population == context@.dom().len(),
            walking(context@, target, descendents@, stack@, visited@),
            covers_children(context@, descendents@, descendents@ + stack@),
            parents_first(context@, descendents@, stack@),
            descendents.len() <= population + 1,
            depth_first(context@, target) == walk(
                context@,
                descendents@,
                stack@,
                (population + 1 - descendents.len()) as nat,
            ),
        decreases population + 1 - descendents.len(),
    {
        proof {
            lemma_walk_size(context@, target, descendents@, stack@, visited@);
            lemma_walk_collect(context@, target, descendents@, stack@, visited@);
            lemma_parents_first_collect(context@, descendents@, stack@);
        }
        let ghost collected = descendents@;
        let ghost pending = stack@;
        let entity = stack.pop().unwrap();
        descendents.push(entity);
        assert(stack@ =~= pending.drop_last());
        assert(descendents@ == collected.push(entity));
        assert((descendents@ + stack@).contains(entity)) by {
            assert((descendents@ + stack@)[collected.len() as int] == entity);
        }
        let children = query_children(context, entity);
        let ghost met = collected + pending;
        proof {
            assert(children@.take(0) =~= Seq::<EntityId>::empty());
            assert(stack@ =~= pending.drop_last() + unseen(children@.take(0), met));
        }
        let mut j: usize = 0;
        while j < children.len()
            invariant
                context.wf(),
                j <= children.len(),
                descendents@ == collected.push(entity),
                walking(context@, target, descendents@, stack@, visited@),
                parents_first(context@, descendents@, stack@),
                covers_children(context@, collected, descendents@ + stack@),
                lists_children(context@, entity, children@),
                forall|k: int| 0 <= k < j ==> (descendents@ + stack@).contains(#[trigger] children[k]),
                stack@ == pending.drop_last() + unseen(children@.take(j as int), met),
                forall|x: EntityId|
                    (descendents@ + stack@).contains(x) ==> met.contains(x) || exists|i: int|
                        0 <= i < j && children[i] == x,
                forall|x: EntityId| met.contains(x) ==> (descendents@ + stack@).contains(x),
            decreases children.len() - j,
        {
            let child = children[j];
            assert(children@.contains(child));
            assert(context@.dom().contains(child));
            proof {
                assert(children@.take(j + 1).drop_last() =~= children@.take(j as int));
                assert(children@.take(j + 1).last() == child);
                if (descendents@ + stack@).contains(child) && !met.contains(child) {
                    let i = choose|i: int| 0 <= i < j && children[i] == child;
                    assert(children[i].index < children[j as int].index);
                }
            }
            if !visited[child.index] {
                proof {
                    assert((descendents@ + stack@).contains(entity)) by {
                        assert((descendents@ + stack@)[collected.len() as int] == entity);
                    }
                    let k = choose|k: nat| ancestor(context@, entity, k) == Some(target);
                    assert(ancestor(context@, child, k + 1) == Some(target));
                    lemma_walk_push(context@, target, descendents@, stack@, visited@, child);
                    lemma_parents_first_push(context@, descendents@, stack@, child);
                }
                visited[child.index] = true;
                stack.push(child);
                proof {
                    assert(stack@ =~= pending.drop_last() + unseen(
                        children@.take(j + 1),
                        met,
                    ));
                }
            }
            j = j + 1;
        }
        proof {
            assert(children@.take(children.len() as int) =~= children@);
            let all = descendents@ + stack@;
            assert forall|c: EntityId|
                (#[trigger] parent_of(context@, c)) is Some && descendents@.contains(
                    parent_of(context@, c).unwrap(),
                ) implies all.contains(c) by {
                let x = parent_of(context@, c).unwrap();
                let i = choose|i: int| 0 <= i < descendents@.len() && descendents@[i] == x;
                if i < collected.len() {
                    assert(collected[i] == x);
                    assert(collected.contains(x));
                } else {
                    assert(x == entity);
                    assert(children@.contains(c));
                    let k = choose|k: int| 0 <= k < children.len() && children[k] == c;
                    assert(all.contains(children[k]));
                }
            }
        }
    }
    proof {
        assert(descendents@ + stack@ =~= descendents@);
        assert(descendents@.contains(target)) by {
            assert(descendents@[0] == target);
        }
        assert forall|e: EntityId| descends(context@, e, target) implies descendents@.contains(
            e,
        ) by {
            let k = choose|k: nat| ancestor(context@, e, k) == Some(target);
            lemma_walk_complete(context@, target, descendents@, e, k);
        }
    }
    descendents
}

/// Every entity descends from itself.
pub proof fn lemma_descends_reflexive(world: Map<EntityId, Row>, e: EntityId)
    ensures
        descends(world, e, e),
{
    assert(ancestor(world, e, 0) == Some(e));
}

/// In a chain where `c` hangs under `b` and `b` under `a`, `c` descends from
/// `a`; and `a` does not descend from `c` unless the parent links lead from
/// `c` back to `c`.
pub proof fn lemma_chain_descends(world: Map<EntityId, Row>, a: EntityId, b: EntityId, c: EntityId)
    requires
        parent_of(world, c) == Some(b),
        parent_of(world, b) == Some(a),
        forall|k: nat| k > 0 ==> ancestor(world, c, k) != Some(c),
    ensures
        descends(world, c, a),
        !descends(world, a, c),
{
    assert(ancestor(world, c, 2) == Some(a)) by {
        assert(ancestor(world, b, 1) == ancestor(world, a, 0));
        assert(ancestor(world, c, 2) == ancestor(world, b, 1));
    }
    if descends(world, a, c) {
        let k = choose|k: nat| ancestor(world, a, k) == Some(c);
        lemma_ancestor_add(world, c, 2, k);
        assert(ancestor(world, c, 2 + k) == Some(c));
    }
}

/// `root` ends the chain of ancestors of `e`: it is reached from `e` by at
/// least one parent link and names no parent itself.
pub open spec fn is_root_of(world: Map<EntityId, Row>, e: EntityId, root: EntityId) -> bool {
    exists|k: nat| k > 0 && ancestor(world, e, k) == Some(root) && parent_of(world, root) is None
}

/// The chain of ancestors of an entity has at most one end.
pub proof fn lemma_root_unique(world: Map<EntityId, Row>, e: EntityId, a: EntityId, b: EntityId)
    requires
        is_root_of(world, e, a),
        is_root_of(world, e, b),
    ensures
        a == b,
{
    let i = choose|k: nat| k > 0 && ancestor(world, e, k) == Some(a) && parent_of(world, a) is None;
    let j = choose|k: nat| k > 0 && ancestor(world, e, k) == Some(b) && parent_of(world, b) is None;
    if i < j {
        lemma_ancestor_add(world, e, i, (j - i) as nat);
        assert(i + (j - i) as nat == j);
        assert(ancestor(world, a, (j - i) as nat) is None);
    } else if j < i {
        lemma_ancestor_add(world, e, j, (i - j) as nat);
        assert(j + (i - j) as nat == i);
        assert(ancestor(world, b, (i - j) as nat) is None);
    }
}

/// The scene that `entity` belongs to: the entity at the top of its chain of
/// ancestors. Absent when `entity` names no parent, and when the parent links
/// above it close a cycle.
pub fn query_scene(context: &Context, entity: EntityId) -> (scene: Option<EntityId>)
    requires
        context.wf(),
    ensures
        match scene {
            Some(root) => is_root_of(context@, entity, root),
            None => forall|root: EntityId| !is_root_of(context@, entity, root),
        },
{
    let bound = entity_count(context);
    let mut current = entity;
    let mut steps: usize = 0;
    while steps < bound
        invariant
            context.wf(),
            context@.dom().finite(),
            bound == context@.dom().len(),
            steps <= bound,
            ancestor(context@, entity, steps as nat) == Some(current),
            forall|k: nat|
                0 < k <= steps ==> ancestor(context@, entity, k) is Some && parent_of(
                    context@,
                    ancestor(context@, entity, k).unwrap(),
                ) is Some,
        decreases bound - steps,
    {
        match get_component::<Parent>(context, current) {
            Some(parent) => {
                let next = parent.0;
                proof {
                    lemma_ancestor_add(context@, entity, steps as nat, 1);
                    assert(ancestor(context@, current, 1) == ancestor(context@, next, 0));
                }
                if get_component::<Parent>(context, next).is_none() {
                    assert(steps + 1 > 0 && ancestor(context@, entity, (steps + 1) as nat) == Some(
                        next,
                    ));
                    return Some(next);
                }
                current = next;
                steps = steps + 1;
            },
            None => {
                proof {
                    assert forall|root: EntityId| !is_root_of(context@, entity, root) by {
                        if is_root_of(context@, entity, root) {
                            let k = choose|k: nat|
                                k > 0 && ancestor(context@, entity, k) == Some(root) && parent_of(
                                    context@,
                                    root,
                                ) is None;
                            if k > steps {
                                lemma_ancestor_add(
                                    context@,
                                    entity,
                                    steps as nat,
                                    (k - steps) as nat,
                                );
                                assert(steps as nat + (k - steps) as nat == k);
                            }
                        }
                    }
                }
                return None;
            },
        }
    }
    proof {
        assert forall|root: EntityId| !is_root_of(context@, entity, root) by {
            if is_root_of(context@, entity, root) {
                let k = choose|k: nat|
                    k > 0 && ancestor(context@, entity, k) == Some(root) && parent_of(
                        context@,
                        root,
                    ) is None;
                assert forall|i: nat| i < k implies ancestor(context@, entity, i) != Some(
                    root,
                ) by {
                    if ancestor(context@, entity, i) == Some(root) {
                        lemma_ancestor_add(context@, entity, i, (k - i) as nat);
                        assert(i + (k - i) as nat == k);
                        assert(ancestor(context@, root, (k - i) as nat) is None);
                    }
                }
                lemma_shortest_chain(context@, entity, root, k);
            }
        }
    }
    None
}

/// The entities of the scene under `scene`: the live entities with a local
/// transform that are `scene` or lie below it, by increasing slot index.
pub fn query_scene_entities(context: &Context, scene: EntityId) -> (entities: Vec<EntityId>)
    requires
        context.wf(),
    ensures
        ordered(entities@),
        forall|e: EntityId|
            entities@.contains(e) <==> context@.dom().contains(e)
                && context@[e].local_transform is Some && descends(context@, e, scene),
{
    let candidates = query_entities(context, LOCAL_TRANSFORM);
    let ghost keep = |e: EntityId| descends(context@, e, scene);
    let mut entities: Vec<EntityId> = Vec::new();
    let mut i: usize = 0;
    while i < candidates.len()
        invariant
            context.wf(),
            i <= candidates.len(),
            ordered(candidates@),
            keep == |e: EntityId| descends(context@, e, scene),
            picks(candidates@, i as int, keep, entities@),
        decreases candidates.len() - i,
    {
        let entity = candidates[i];
        proof {
            lemma_picks_next(candidates@, i as int, keep, entities@);
        }
        if is_descendant_of(context, entity, scene) {
            entities.push(entity);
        }
        i = i + 1;
    }
    proof {
        lemma_picks_all(candidates@, keep, entities@);
        assert forall|e: EntityId| context@.dom().contains(e) implies (candidates@.contains(e)
            <==> context@[e].local_transform is Some) by {
            lemma_mask_storage_coherence(*context, e);
            lemma_single_kind(context@[e].mask);
        }
    }
    entities
}

} // verus!
