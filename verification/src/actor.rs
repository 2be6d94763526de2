//! The actor steering updater and the cache janitor: once per tick every
//! actor with a target samples its flow field into a steering vector, and
//! the janitor then evicts the fields no live actor targets any more.
//!
//! The two phases are ordered: the janitor must run only after all steering
//! samples of the tick have been taken, or an actor could lose its field
//! mid-tick.

use vstd::prelude::*;

use crate::cache::FlowFields;
use crate::dirs::decode_pair;
use crate::field::{build_result_spec, FlowField};
use crate::grid::{cell_of, cell_set, in_bounds, GridCell, WorldPos};

verus! {

/// An integer steering vector: either one unit-ish step taken from a flow
/// field, or the raw straight-line difference toward the target, which the
/// host scales or normalises before integrating movement.
#[derive(Clone, Copy, PartialEq, Eq, Structural, Debug)]
pub struct SteerVec {
    pub x: i64,
    pub y: i64,
}

/// A mobile actor's navigation state: the world position it wants to reach
/// and the steering vector resolved for the current tick.
#[derive(Clone, Copy, PartialEq, Eq, Structural, Debug)]
pub struct FlowFieldActor {
    pub target: WorldPos,
    pub steering: SteerVec,
}

impl FlowFieldActor {
    /// A fresh actor order: a target with no steering resolved yet.
    pub fn new(target: WorldPos) -> (r: Self)
        ensures
            r.target == target,
            r.steering == (SteerVec { x: 0, y: 0 }),
    {
        FlowFieldActor { target, steering: SteerVec { x: 0, y: 0 } }
    }
}

/// The steering vector of an actor, as a pair of integers.
pub open spec fn steering_of(a: FlowFieldActor) -> (int, int) {
    (a.steering.x as int, a.steering.y as int)
}

/// The straight-line fallback vector: the raw difference from the actor's
/// position to its exact target position, zero only when they coincide.
pub open spec fn fallback_steer(pos: WorldPos, target: WorldPos) -> (int, int) {
    (target.x - pos.x, target.y - pos.y)
}

/// What steering a cache resolves for an actor at `pos` heading for
/// `target`: the decoded field direction at the actor's cell, or the
/// straight-line fallback whenever the field cannot answer (no field, a
/// recorded build error, an out-of-field position, or a sentinel cell).
pub open spec fn steering_spec(cache: FlowFields, pos: WorldPos, target: WorldPos) -> (int, int) {
    let t = cell_of(target);
    if cache.has_field(t) {
        match cache.field_entry(t) {
            Ok(v) => {
                let c = cell_of(pos);
                if in_bounds(v.n, c) {
                    let d = decode_pair(v.at(c));
                    if d != (0int, 0int) {
                        d
                    } else {
                        fallback_steer(pos, target)
                    }
                } else {
                    fallback_steer(pos, target)
                }
            },
            Err(_) => fallback_steer(pos, target),
        }
    } else {
        fallback_steer(pos, target)
    }
}

/// The straight-line fallback, computed in integers.
fn straight_line(pos: &WorldPos, target: &WorldPos) -> (r: SteerVec)
    ensures
        (r.x as int, r.y as int) == fallback_steer(*pos, *target),
{
    SteerVec { x: target.x as i64 - pos.x as i64, y: target.y as i64 - pos.y as i64 }
}

/// Resolve one actor's steering for this tick: fetch (or build) the flow
/// field of its target cell, sample it at the actor's cell, and fall back
/// to the straight line whenever the sample is the zero vector.  This never
/// raises an error to the caller; a failed build degrades to the fallback.
pub fn update_actor_steering(
    actor: &mut FlowFieldActor,
    pos: WorldPos,
    flow_fields: &mut FlowFields,
)
    requires
        old(flow_fields).wf(),
    ensures
        final(flow_fields).wf(),
        final(flow_fields).side() == old(flow_fields).side(),
        final(flow_fields).impassable_set() == old(flow_fields).impassable_set(),
        final(actor).target == old(actor).target,
        forall|c: (int, int)|
            final(flow_fields).has_field(c) == (old(flow_fields).has_field(c)
                || c == cell_of(old(actor).target)),
        forall|c: (int, int)|
            old(flow_fields).has_field(c)
                ==> final(flow_fields).field_entry(c) == old(flow_fields).field_entry(c),
        !old(flow_fields).has_field(cell_of(old(actor).target)) ==> build_result_spec(
            old(flow_fields).side(),
            old(flow_fields).impassable_set(),
            cell_of(old(actor).target),
            final(flow_fields).field_entry(cell_of(old(actor).target)),
        ),
        steering_of(*final(actor)) == steering_spec(*final(flow_fields), pos, old(actor).target),
        pos == old(actor).target ==> final(actor).steering == (SteerVec { x: 0, y: 0 }),
{
    let target_cell = FlowField::world_to_grid(&actor.target);
    let res = flow_fields.get_or_generate(&target_cell);
    let steering: SteerVec = match res {
        Ok(field) => {
            let pos_cell = FlowField::world_to_grid(&pos);
            let side = field.side();
            if (pos_cell.x as usize) < side && (pos_cell.y as usize) < side {
                let v = field.get(&pos);
                if v.x != 0 || v.y != 0 {
                    SteerVec { x: v.x as i64, y: v.y as i64 }
                } else {
                    straight_line(&pos, &actor.target)
                }
            } else {
                straight_line(&pos, &actor.target)
            }
        },
        Err(_) => straight_line(&pos, &actor.target),
    };
    actor.steering = steering;
}

/// The set of grid cells targeted by any live actor.
pub open spec fn live_targets(actors: Seq<FlowFieldActor>) -> Set<(int, int)> {
    Set::new(
        |c: (int, int)|
            exists|i: int| 0 <= i < actors.len() && cell_of(#[trigger] actors[i].target) == c,
    )
}

/// Resolve steering for every actor of the tick, in order.  Fields built
/// for earlier actors stay cached, so each actor's steering also matches
/// the cache state left at the end of the pass.
pub fn update_flow_field_generation(
    actors: &mut Vec<FlowFieldActor>,
    positions: &Vec<WorldPos>,
    flow_fields: &mut FlowFields,
)
    requires
        old(flow_fields).wf(),
        old(actors)@.len() == positions@.len(),
    ensures
        final(flow_fields).wf(),
        final(flow_fields).side() == old(flow_fields).side(),
        final(flow_fields).impassable_set() == old(flow_fields).impassable_set(),
        final(actors)@.len() == old(actors)@.len(),
        forall|i: int|
            0 <= i < old(actors)@.len() ==> #[trigger] final(actors)@[i].target == old(actors)@[i].target,
        forall|c: (int, int)|
            old(flow_fields).has_field(c) ==> final(flow_fields).has_field(c)
                && final(flow_fields).field_entry(c) == old(flow_fields).field_entry(c),
        forall|c: (int, int)|
            final(flow_fields).has_field(c) ==> old(flow_fields).has_field(c) || live_targets(
                old(actors)@,
            ).contains(c),
        forall|c: (int, int)|
            final(flow_fields).has_field(c) && !old(flow_fields).has_field(c)
                ==> build_result_spec(
                old(flow_fields).side(),
                old(flow_fields).impassable_set(),
                c,
                #[trigger] final(flow_fields).field_entry(c),
            ),
        forall|i: int|
            0 <= i < old(actors)@.len() ==> steering_of(#[trigger] final(actors)@[i])
                == steering_spec(*final(flow_fields), positions@[i], old(actors)@[i].target),
{
    let mut j: usize = 0;
    while j < actors.len()
        invariant
            flow_fields.wf(),
            flow_fields.side() == old(flow_fields).side(),
            flow_fields.impassable_set() == old(flow_fields).impassable_set(),
            actors@.len() == old(actors)@.len(),
            actors@.len() == positions@.len(),
            j <= actors@.len(),
            forall|i: int|
                0 <= i < actors@.len() ==> #[trigger] actors@[i].target == old(actors)@[i].target,
            forall|c: (int, int)|
                old(flow_fields).has_field(c) ==> flow_fields.has_field(c)
                    && flow_fields.field_entry(c) == old(flow_fields).field_entry(c),
            forall|c: (int, int)|
                flow_fields.has_field(c) ==> old(flow_fields).has_field(c) || exists|i: int|
                    0 <= i < j && cell_of(#[trigger] old(actors)@[i].target) == c,
            forall|i: int|
                0 <= i < j ==> flow_fields.has_field(cell_of(old(actors)@[i].target)),
            forall|c: (int, int)|
                flow_fields.has_field(c) && !old(flow_fields).has_field(c) ==> build_result_spec(
                    old(flow_fields).side(),
                    old(flow_fields).impassable_set(),
                    c,
                    #[trigger] flow_fields.field_entry(c),
                ),
            forall|i: int|
                0 <= i < j ==> steering_of(#[trigger] actors@[i]) == steering_spec(
                    *flow_fields,
                    positions@[i],
                    old(actors)@[i].target,
                ),
        decreases actors@.len() - j,
    {
        let ghost cache0 = *flow_fields;
        let mut a = actors[j];
        update_actor_steering(&mut a, positions[j], flow_fields);
        actors.set(j, a);
        proof {
            // entries cached for earlier actors were preserved, so their
            // steering still matches the updated cache
            assert forall|i: int| 0 <= i < j implies steering_of(#[trigger] actors@[i])
                == steering_spec(*flow_fields, positions@[i], old(actors)@[i].target) by {
                let t = cell_of(old(actors)@[i].target);
                assert(cache0.has_field(t));
                assert(flow_fields.has_field(t));
                assert(flow_fields.field_entry(t) == cache0.field_entry(t));
                assert(steering_of(actors@[i]) == steering_spec(
                    cache0,
                    positions@[i],
                    old(actors)@[i].target,
                ));
            }
            assert forall|c: (int, int)|
                flow_fields.has_field(c) implies old(flow_fields).has_field(c) || exists|i: int|
                0 <= i < j + 1 && cell_of(#[trigger] old(actors)@[i].target) == c by {
                if !old(flow_fields).has_field(c) {
                    if cache0.has_field(c) {
                        let i = choose|i: int|
                            0 <= i < j && cell_of(#[trigger] old(actors)@[i].target) == c;
                        assert(0 <= i < j + 1 && cell_of(old(actors)@[i].target) == c);
                    } else {
                        assert(c == cell_of(old(actors)@[j as int].target));
                    }
                }
            }
            assert forall|c: (int, int)|
                flow_fields.has_field(c) && !old(flow_fields).has_field(c) implies build_result_spec(
                old(flow_fields).side(),
                old(flow_fields).impassable_set(),
                c,
                #[trigger] flow_fields.field_entry(c),
            ) by {
                if cache0.has_field(c) {
                    assert(flow_fields.field_entry(c) == cache0.field_entry(c));
                } else {
                    assert(c == cell_of(old(actors)@[j as int].target));
                }
            }
        }
        j = j + 1;
    }
    proof {
        assert forall|c: (int, int)|
            final(flow_fields).has_field(c) implies old(flow_fields).has_field(c) || live_targets(
            old(actors)@,
        ).contains(c) by {
            if !old(flow_fields).has_field(c) {
                let i = choose|i: int|
                    0 <= i < actors@.len() && cell_of(#[trigger] old(actors)@[i].target) == c;
                assert(live_targets(old(actors)@).contains(c));
            }
        }
    }
}

/// The cache janitor: evict every cached field whose target cell is not
/// referenced by any live actor.  Idempotent; run it only after all the
/// tick's steering samples have been taken.
pub fn update_clean_flow_field_cache(actors: &Vec<FlowFieldActor>, flow_fields: &mut FlowFields)
    requires
        old(flow_fields).wf(),
    ensures
        final(flow_fields).wf(),
        final(flow_fields).side() == old(flow_fields).side(),
        final(flow_fields).impassable_set() == old(flow_fields).impassable_set(),
        forall|c: (int, int)|
            final(flow_fields).has_field(c) == (old(flow_fields).has_field(c)
                && live_targets(actors@).contains(c)),
        forall|c: (int, int)|
            final(flow_fields).has_field(c)
                ==> final(flow_fields).field_entry(c) == old(flow_fields).field_entry(c),
        actors@.len() == 0 ==> final(flow_fields).entry_count() == 0,
{
    let mut live: Vec<GridCell> = Vec::new();
    let mut i: usize = 0;
    while i < actors.len()
        invariant
            i <= actors@.len(),
            live@.len() == i,
            forall|k: int|
                0 <= k < i ==> #[trigger] live@[k]@ == cell_of(actors@[k].target),
        decreases actors@.len() - i,
    {
        let cell = FlowField::world_to_grid(&actors[i].target);
        live.push(cell);
        i = i + 1;
    }
    proof {
        assert forall|c: (int, int)|
            cell_set(live@).contains(c) == live_targets(actors@).contains(c) by {
            if cell_set(live@).contains(c) {
                let k = choose|k: int| 0 <= k < live@.len() && #[trigger] live@[k]@ == c;
                assert(cell_of(actors@[k].target) == c);
                assert(live_targets(actors@).contains(c));
            }
            if live_targets(actors@).contains(c) {
                let k = choose|k: int|
                    0 <= k < actors@.len() && cell_of(#[trigger] actors@[k].target) == c;
                assert(live@[k]@ == c);
                assert(cell_set(live@).contains(c));
            }
        }
    }
    flow_fields.evict_except(&live);
}

} // verus!
