use flowfield::cache::FlowFields;
use flowfield::field::FlowError;
use flowfield::grid::{GridCell, WorldPos, CELL_SIZE};

fn cell(x: u32, y: u32) -> GridCell {
    GridCell { x, y }
}

fn center_of(c: GridCell) -> WorldPos {
    WorldPos { x: c.x * CELL_SIZE + CELL_SIZE / 2, y: c.y * CELL_SIZE + CELL_SIZE / 2 }
}

#[test]
fn get_or_generate_serves_the_same_field_twice() {
    let mut cache = FlowFields::new(4);
    cache.set_impassable(cell(1, 1));
    let first = cache.get_or_generate(&cell(2, 2)).expect("builds");
    let second = cache.get_or_generate(&cell(2, 2)).expect("cached");
    assert_eq!(first.side(), second.side());
    assert_eq!(first.target_cell(), second.target_cell());
    for x in 0..4 {
        for y in 0..4 {
            let p = center_of(cell(x, y));
            assert_eq!(first.get(&p), second.get(&p));
        }
    }
}

#[test]
fn get_misses_until_generated() {
    let mut cache = FlowFields::new(4);
    assert!(cache.get(&cell(2, 2)).is_none());
    cache.get_or_generate(&cell(2, 2)).expect("builds");
    assert!(cache.get(&cell(2, 2)).is_some());
}

#[test]
fn blocked_target_error_is_served_from_the_cache_too() {
    let mut cache = FlowFields::new(4);
    cache.set_impassable(cell(1, 1));
    let r = cache.get_or_generate(&cell(1, 1));
    assert!(matches!(r, Err(FlowError::TargetBlocked)));
    // the recorded error is served again; `get` exposes no field for it
    let r = cache.get_or_generate(&cell(1, 1));
    assert!(matches!(r, Err(FlowError::TargetBlocked)));
    assert!(cache.get(&cell(1, 1)).is_none());
}

#[test]
fn out_of_bounds_target_errors() {
    let mut cache = FlowFields::new(4);
    let r = cache.get_or_generate(&cell(4, 4));
    assert!(matches!(r, Err(FlowError::OutOfBounds)));
}

#[test]
fn default_cache_spans_thirty_two_cells() {
    let mut cache = FlowFields::default();
    assert!(cache.get_or_generate(&cell(31, 31)).is_ok());
    assert!(matches!(
        cache.get_or_generate(&cell(32, 0)),
        Err(FlowError::OutOfBounds)
    ));
}

#[test]
fn is_walkable_reads_the_passability_set_directly() {
    let mut cache = FlowFields::new(4);
    let inside = WorldPos { x: 70, y: 70 };
    assert!(cache.is_walkable(&inside));
    cache.set_impassable(cell(1, 1));
    assert!(!cache.is_walkable(&inside));
    assert!(!cache.is_walkable(&WorldPos { x: 64, y: 127 }));
    assert!(cache.is_walkable(&WorldPos { x: 63, y: 63 }));
    cache.set_passable(&cell(1, 1));
    assert!(cache.is_walkable(&inside));
}

#[test]
fn cached_fields_are_not_invalidated_by_terrain_edits() {
    let mut cache = FlowFields::new(4);
    let before = cache.get_or_generate(&cell(2, 2)).expect("builds");
    let sample = before.get(&center_of(cell(0, 0)));

    // the edit shows up in walkability at once, but the stale field stays
    cache.set_impassable(cell(0, 0));
    assert!(!cache.is_walkable(&center_of(cell(0, 0))));
    let after = cache.get(&cell(2, 2)).expect("still cached");
    assert_eq!(after.get(&center_of(cell(0, 0))), sample);
}

#[test]
fn edits_apply_to_future_builds() {
    let mut cache = FlowFields::new(4);
    cache.set_impassable(cell(1, 1));
    let field = cache.get_or_generate(&cell(2, 2)).expect("builds");
    let v = field.get(&center_of(cell(1, 1)));
    assert_eq!((v.x, v.y), (0, 0));
}
