//! Mask queries: the live entities whose mask holds every required bit.

use vstd::prelude::*;
use crate::context::{capacity, mask_of, occupant, Context, Row};
use crate::entity::EntityId;
use crate::mask::includes;

verus! {

/// The slot indices of `s` increase strictly.
pub open spec fn ordered(s: Seq<EntityId>) -> bool {
    forall|i: int, j: int| 0 <= i < j < s.len() ==> s[i].index < s[j].index
}

/// `s` lists, by increasing slot index, exactly the live entities of `world`
/// whose mask includes `required`.
pub open spec fn selects(world: Map<EntityId, Row>, required: u32, s: Seq<EntityId>) -> bool {
    &&& ordered(s)
    &&& forall|e: EntityId|
        s.contains(e) <==> world.dom().contains(e) && includes(world[e].mask, required)
}

/// The live entities of `world` whose mask includes `required`, by increasing
/// slot index.
pub open spec fn selection(world: Map<EntityId, Row>, required: u32) -> Seq<EntityId> {
    choose|s: Seq<EntityId>| selects(world, required, s)
}

/// Two ordered sequences with the same elements are the same sequence.
pub proof fn lemma_ordered_unique(a: Seq<EntityId>, b: Seq<EntityId>)
    requires
        ordered(a),
        ordered(b),
        forall|e: EntityId| a.contains(e) <==> b.contains(e),
    ensures
        a == b,
    decreases a.len(),
{
    if a.len() == 0 {
        if b.len() > 0 {
            assert(b.contains(b[0]));
            assert(a.contains(b[0]));
        }
        assert(a =~= b);
    } else {
        let x = a.last();
        assert(a.contains(x));
        assert(b.contains(x));
        let j = choose|j: int| 0 <= j < b.len() && b[j] == x;
        let y = b.last();
        assert(b.contains(y));
        assert(a.contains(y));
        let i = choose|i: int| 0 <= i < a.len() && a[i] == y;
        assert(i == a.len() - 1);
        assert(j == b.len() - 1);
        let a0 = a.drop_last();
        let b0 = b.drop_last();
        assert forall|e: EntityId| a0.contains(e) <==> b0.contains(e) by {
            if a0.contains(e) {
                let k = choose|k: int| 0 <= k < a0.len() && a0[k] == e;
                assert(a[k] == e);
                assert(a.contains(e));
                let m = choose|m: int| 0 <= m < b.len() && b[m] == e;
                assert(m < b.len() - 1);
                assert(b0[m] == e);
            }
            if b0.contains(e) {
                let k = choose|k: int| 0 <= k < b0.len() && b0[k] == e;
                assert(b[k] == e);
                assert(b.contains(e));
                let m = choose|m: int| 0 <= m < a.len() && a[m] == e;
                assert(m < a.len() - 1);
                assert(a0[m] == e);
            }
        }
        lemma_ordered_unique(a0, b0);
        assert(a =~= a0.push(x));
        assert(b =~= b0.push(y));
    }
}

/// Every live entity whose mask includes `required`, by increasing slot index.
pub fn query_entities(context: &Context, required: u32) -> (entities: Vec<EntityId>)
    ensures
        selects(context@, required, entities@),
        entities@ == selection(context@, required),
{
    let n = capacity(context);
    let mut entities: Vec<EntityId> = Vec::new();
    let mut i: usize = 0;
    while i < n
        invariant
            i <= n,
            forall|e: EntityId| context@.dom().contains(e) ==> e.index < n,
            ordered(entities@),
            forall|k: int| 0 <= k < entities.len() ==> entities[k].index < i,
            forall|e: EntityId|
                entities@.contains(e) <==> context@.dom().contains(e) && includes(
                    context@[e].mask,
                    required,
                ) && e.index < i,
        decreases n - i,
    {
        let ghost before = entities@;
        match occupant(context, i) {
            Some(e) => {
                if mask_of(context, e) & required == required {
                    entities.push(e);
                    assert forall|x: EntityId|
                        entities@.contains(x) <==> context@.dom().contains(x) && includes(
                            context@[x].mask,
                            required,
                        ) && x.index < i + 1 by {
                        if entities@.contains(x) {
                            let k = choose|k: int| 0 <= k < entities.len() && entities[k] == x;
                            if k < before.len() {
                                assert(before[k] == x);
                                assert(before.contains(x));
                            }
                        }
                        if context@.dom().contains(x) && includes(context@[x].mask, required)
                            && x.index < i + 1 {
                            if x.index < i {
                                assert(before.contains(x));
                                let k = choose|k: int| 0 <= k < before.len() && before[k] == x;
                                assert(entities[k] == x);
                            } else {
                                assert(entities[before.len() as int] == x);
                            }
                        }
                    }
                }
            },
            None => {},
        }
        i = i + 1;
    }
    proof {
        assert(selects(context@, required, entities@));
        lemma_ordered_unique(entities@, selection(context@, required));
    }
    entities
}

/// The entity at position `index` of the selection for `required`, if the
/// selection is that long.
pub fn query_nth(context: &Context, required: u32, index: usize) -> (entity: Option<EntityId>)
    ensures
        entity == if index < selection(context@, required).len() {
            Some(selection(context@, required)[index as int])
        } else {
            None
        },
{
    let entities = query_entities(context, required);
    if index < entities.len() {
        Some(entities[index])
    } else {
        None
    }
}

/// `picked` lists, in their order, the entities among the first `n` of
/// `candidates` that `keep` accepts.
pub open spec fn picks(
    candidates: Seq<EntityId>,
    n: int,
    keep: spec_fn(EntityId) -> bool,
    picked: Seq<EntityId>,
) -> bool {
    &&& ordered(picked)
    &&& forall|k: int|
        0 <= k < picked.len() ==> exists|m: int|
            0 <= m < n && candidates[m] == #[trigger] picked[k]
    &&& forall|e: EntityId|
        picked.contains(e) <==> keep(e) && exists|m: int| 0 <= m < n && candidates[m] == e
}

/// Looking at one more candidate, and taking it if `keep` accepts it, keeps
/// the list picked.
pub proof fn lemma_picks_next(
    candidates: Seq<EntityId>,
    n: int,
    keep: spec_fn(EntityId) -> bool,
    picked: Seq<EntityId>,
)
    requires
        ordered(candidates),
        0 <= n < candidates.len(),
        picks(candidates, n, keep, picked),
    ensures
        picks(
            candidates,
            n + 1,
            keep,
            if keep(candidates[n]) {
                picked.push(candidates[n])
            } else {
                picked
            },
        ),
{
    let next = if keep(candidates[n]) {
        picked.push(candidates[n])
    } else {
        picked
    };
    assert forall|k: int| 0 <= k < next.len() implies exists|m: int|
        0 <= m < n + 1 && candidates[m] == #[trigger] next[k] by {
        if k < picked.len() {
            let m = choose|m: int| 0 <= m < n && candidates[m] == picked[k];
            assert(candidates[m] == next[k]);
        } else {
            assert(candidates[n] == next[k]);
        }
    }
    assert forall|a: int, b: int| 0 <= a < b < next.len() implies next[a].index
        < next[b].index by {
        if b == picked.len() {
            let m = choose|m: int| 0 <= m < n && candidates[m] == picked[a];
            assert(candidates[m].index < candidates[n].index);
        } else {
            assert(picked[a].index < picked[b].index);
        }
    }
    assert forall|e: EntityId|
        next.contains(e) <==> keep(e) && exists|m: int| 0 <= m < n + 1 && candidates[m] == e by {
        if next.contains(e) {
            let k = choose|k: int| 0 <= k < next.len() && next[k] == e;
            if k < picked.len() {
                assert(picked[k] == e);
                assert(picked.contains(e));
                let m = choose|m: int| 0 <= m < n && candidates[m] == e;
                assert(0 <= m < n + 1 && candidates[m] == e);
            } else {
                assert(candidates[n] == e);
            }
        }
        if keep(e) && exists|m: int| 0 <= m < n + 1 && candidates[m] == e {
            let m = choose|m: int| 0 <= m < n + 1 && candidates[m] == e;
            if m < n {
                assert(picked.contains(e));
                let k = choose|k: int| 0 <= k < picked.len() && picked[k] == e;
                assert(next[k] == e);
            } else {
                assert(next[picked.len() as int] == e);
            }
        }
    }
}

/// A list picked from all of `candidates` holds exactly the candidates that
/// `keep` accepts.
pub proof fn lemma_picks_all(
    candidates: Seq<EntityId>,
    keep: spec_fn(EntityId) -> bool,
    picked: Seq<EntityId>,
)
    requires
        picks(candidates, candidates.len() as int, keep, picked),
    ensures
        ordered(picked),
        forall|e: EntityId| picked.contains(e) <==> keep(e) && candidates.contains(e),
{
    assert forall|e: EntityId| picked.contains(e) <==> keep(e) && candidates.contains(e) by {
        if picked.contains(e) {
            let m = choose|m: int| 0 <= m < candidates.len() && candidates[m] == e;
            assert(candidates.contains(e));
        }
        if keep(e) && candidates.contains(e) {
            let m = choose|m: int| 0 <= m < candidates.len() && candidates[m] == e;
            assert(0 <= m < candidates.len() && candidates[m] == e);
        }
    }
}

/// Once an entity is destroyed it has no row, so no component of it is found
/// and no selection lists it, whatever the required mask.
pub proof fn lemma_destroyed_is_absent(
    before: Map<EntityId, Row>,
    entity: EntityId,
    required: u32,
    s: Seq<EntityId>,
)
    requires
        selects(before.remove(entity), required, s),
    ensures
        !before.remove(entity).dom().contains(entity),
        !s.contains(entity),
{
}

} // verus!
