use flowfield::actor::{
    update_actor_steering, update_clean_flow_field_cache, update_flow_field_generation,
    FlowFieldActor,
};
use flowfield::cache::FlowFields;
use flowfield::grid::{GridCell, WorldPos, CELL_SIZE};

fn cell(x: u32, y: u32) -> GridCell {
    GridCell { x, y }
}

fn center_of(c: GridCell) -> WorldPos {
    WorldPos { x: c.x * CELL_SIZE + CELL_SIZE / 2, y: c.y * CELL_SIZE + CELL_SIZE / 2 }
}

#[test]
fn a_fresh_order_has_zero_steering() {
    let a = FlowFieldActor::new(WorldPos { x: 150, y: 150 });
    assert_eq!((a.steering.x, a.steering.y), (0, 0));
    assert_eq!(a.target, WorldPos { x: 150, y: 150 });
}

#[test]
fn steering_is_zero_exactly_at_the_target() {
    let mut cache = FlowFields::new(4);
    let spot = WorldPos { x: 150, y: 150 };
    let mut actor = FlowFieldActor::new(spot);
    update_actor_steering(&mut actor, spot, &mut cache);
    assert_eq!((actor.steering.x, actor.steering.y), (0, 0));
}

#[test]
fn steering_follows_the_cached_field() {
    let mut cache = FlowFields::new(4);
    let target = center_of(cell(2, 2));
    let mut actor = FlowFieldActor::new(target);
    let pos = center_of(cell(0, 0));
    update_actor_steering(&mut actor, pos, &mut cache);

    let field = cache.get(&cell(2, 2)).expect("field was generated");
    let v = field.get(&pos);
    assert_eq!((actor.steering.x, actor.steering.y), (v.x as i64, v.y as i64));
    assert!(actor.steering.x > 0 || actor.steering.y > 0);
}

#[test]
fn blocked_target_degrades_to_the_straight_line() {
    let mut cache = FlowFields::new(4);
    cache.set_impassable(cell(2, 2));
    let target = WorldPos { x: 150, y: 150 };
    let mut actor = FlowFieldActor::new(target);
    let pos = WorldPos { x: 10, y: 10 };
    update_actor_steering(&mut actor, pos, &mut cache);
    assert_eq!((actor.steering.x, actor.steering.y), (140, 140));
}

#[test]
fn a_position_outside_the_field_degrades_to_the_straight_line() {
    let mut cache = FlowFields::new(4);
    let target = WorldPos { x: 150, y: 150 };
    let mut actor = FlowFieldActor::new(target);
    let pos = WorldPos { x: 1000, y: 10 };
    update_actor_steering(&mut actor, pos, &mut cache);
    assert_eq!((actor.steering.x, actor.steering.y), (150 - 1000, 140));
}

#[test]
fn inside_the_target_cell_the_fallback_closes_the_gap() {
    // the sampled direction is the zero TARGET sentinel, so the updater
    // falls back to the exact remaining difference
    let mut cache = FlowFields::new(4);
    let target = WorldPos { x: 150, y: 150 };
    let mut actor = FlowFieldActor::new(target);
    let pos = WorldPos { x: 130, y: 135 };
    update_actor_steering(&mut actor, pos, &mut cache);
    assert_eq!((actor.steering.x, actor.steering.y), (20, 15));
}

#[test]
fn one_tick_updates_every_actor() {
    let mut cache = FlowFields::new(4);
    let mut actors = vec![
        FlowFieldActor::new(center_of(cell(2, 2))),
        FlowFieldActor::new(center_of(cell(0, 0))),
    ];
    let positions = vec![center_of(cell(0, 0)), center_of(cell(3, 3))];
    update_flow_field_generation(&mut actors, &positions, &mut cache);

    assert_eq!(actors[0].target, center_of(cell(2, 2)));
    assert_eq!(actors[1].target, center_of(cell(0, 0)));
    assert!(actors[0].steering.x != 0 || actors[0].steering.y != 0);
    assert!(actors[1].steering.x != 0 || actors[1].steering.y != 0);
    assert!(cache.get(&cell(2, 2)).is_some());
    assert!(cache.get(&cell(0, 0)).is_some());
}

#[test]
fn the_janitor_empties_an_unreferenced_cache() {
    let mut cache = FlowFields::new(4);
    cache.get_or_generate(&cell(2, 2)).expect("builds");
    cache.get_or_generate(&cell(0, 0)).expect("builds");
    let no_actors: Vec<FlowFieldActor> = Vec::new();
    update_clean_flow_field_cache(&no_actors, &mut cache);
    assert!(cache.get(&cell(2, 2)).is_none());
    assert!(cache.get(&cell(0, 0)).is_none());
}

#[test]
fn the_janitor_keeps_only_live_targets() {
    let mut cache = FlowFields::new(4);
    cache.get_or_generate(&cell(0, 0)).expect("field A builds");
    cache.get_or_generate(&cell(3, 3)).expect("field B builds");

    let actors = vec![FlowFieldActor::new(center_of(cell(3, 3)))];
    update_clean_flow_field_cache(&actors, &mut cache);

    assert!(cache.get(&cell(0, 0)).is_none());
    assert!(cache.get(&cell(3, 3)).is_some());
}

#[test]
fn the_janitor_is_idempotent() {
    let mut cache = FlowFields::new(4);
    cache.get_or_generate(&cell(0, 0)).expect("builds");
    cache.get_or_generate(&cell(3, 3)).expect("builds");
    let actors = vec![FlowFieldActor::new(center_of(cell(3, 3)))];
    update_clean_flow_field_cache(&actors, &mut cache);
    update_clean_flow_field_cache(&actors, &mut cache);
    assert!(cache.get(&cell(0, 0)).is_none());
    assert!(cache.get(&cell(3, 3)).is_some());
}

#[test]
fn eviction_then_regeneration_rebuilds_the_field() {
    let mut cache = FlowFields::new(4);
    cache.get_or_generate(&cell(2, 2)).expect("builds");
    let no_actors: Vec<FlowFieldActor> = Vec::new();
    update_clean_flow_field_cache(&no_actors, &mut cache);
    assert!(cache.get(&cell(2, 2)).is_none());
    assert!(cache.get_or_generate(&cell(2, 2)).is_ok());
    assert!(cache.get(&cell(2, 2)).is_some());
}
