use flowfield::field::{FlowError, FlowField};
use flowfield::grid::{GridCell, WorldPos, CELL_SIZE};

fn cell(x: u32, y: u32) -> GridCell {
    GridCell { x, y }
}

fn center_of(c: GridCell) -> WorldPos {
    WorldPos { x: c.x * CELL_SIZE + CELL_SIZE / 2, y: c.y * CELL_SIZE + CELL_SIZE / 2 }
}

/// Follow the stored directions from `start` for at most `limit` steps and
/// return the cells visited, the last one being wherever the walk stopped.
fn walk(field: &FlowField, start: GridCell, limit: usize) -> Vec<GridCell> {
    let mut here = start;
    let mut trail = vec![here];
    for _ in 0..limit {
        let v = field.get(&center_of(here));
        if v.x == 0 && v.y == 0 {
            break;
        }
        here = cell(
            (here.x as i64 + v.x as i64) as u32,
            (here.y as i64 + v.y as i64) as u32,
        );
        trail.push(here);
    }
    trail
}

#[test]
fn world_to_grid_floors_by_cell_size() {
    assert_eq!(FlowField::world_to_grid(&WorldPos { x: 130, y: 64 }), cell(2, 1));
    assert_eq!(FlowField::world_to_grid(&WorldPos { x: 63, y: 63 }), cell(0, 0));
    assert_eq!(FlowField::world_to_grid(&WorldPos { x: 0, y: 0 }), cell(0, 0));
}

#[test]
fn out_of_bounds_target_is_rejected() {
    let none: Vec<GridCell> = Vec::new();
    let r = FlowField::build_flow_field(&cell(4, 0), &none, 4);
    assert!(matches!(r, Err(FlowError::OutOfBounds)));
    let r = FlowField::build_flow_field(&cell(0, 4), &none, 4);
    assert!(matches!(r, Err(FlowError::OutOfBounds)));
}

#[test]
fn blocked_target_is_rejected() {
    let walls = vec![cell(1, 1)];
    let r = FlowField::build_flow_field(&cell(1, 1), &walls, 4);
    assert!(matches!(r, Err(FlowError::TargetBlocked)));
}

#[test]
fn cut_off_target_reports_no_path() {
    let walls = vec![
        cell(0, 0),
        cell(1, 0),
        cell(2, 0),
        cell(0, 1),
        cell(2, 1),
        cell(0, 2),
        cell(1, 2),
        cell(2, 2),
    ];
    let r = FlowField::build_flow_field(&cell(1, 1), &walls, 3);
    assert!(matches!(r, Err(FlowError::NoPathFound)));
}

#[test]
fn single_cell_grid_has_no_direction() {
    let none: Vec<GridCell> = Vec::new();
    let r = FlowField::build_flow_field(&cell(0, 0), &none, 1);
    assert!(matches!(r, Err(FlowError::NoPathFound)));
}

#[test]
fn four_by_four_chain_reaches_target() {
    let none: Vec<GridCell> = Vec::new();
    let field = FlowField::build_flow_field(&cell(2, 2), &none, 4).expect("open grid builds");
    assert_eq!(field.side(), 4);
    assert_eq!(field.target_cell(), cell(2, 2));

    // the corner cell points toward increasing x or y
    let v = field.get(&center_of(cell(0, 0)));
    assert!(v.x >= 0 && v.y >= 0);
    assert!(v.x > 0 || v.y > 0);

    // the chain from the corner reaches the target within n * n steps
    let trail = walk(&field, cell(0, 0), 16);
    assert_eq!(*trail.last().unwrap(), cell(2, 2));
}

#[test]
fn every_open_cell_reaches_the_target() {
    let none: Vec<GridCell> = Vec::new();
    let field = FlowField::build_flow_field(&cell(3, 0), &none, 4).expect("open grid builds");
    for x in 0..4 {
        for y in 0..4 {
            let trail = walk(&field, cell(x, y), 16);
            assert_eq!(*trail.last().unwrap(), cell(3, 0));
            // no cell repeats along the chain
            for i in 0..trail.len() {
                for j in (i + 1)..trail.len() {
                    assert_ne!(trail[i], trail[j]);
                }
            }
        }
    }
}

#[test]
fn target_cell_samples_zero() {
    let none: Vec<GridCell> = Vec::new();
    let field = FlowField::build_flow_field(&cell(2, 2), &none, 4).expect("open grid builds");
    let v = field.get(&center_of(cell(2, 2)));
    assert_eq!((v.x, v.y), (0, 0));
}

#[test]
fn impassable_cells_sample_zero_and_are_avoided() {
    // a wall splits the grid; the chain must route around it
    let walls = vec![cell(2, 0), cell(2, 1), cell(2, 2)];
    let field = FlowField::build_flow_field(&cell(3, 1), &walls, 4).expect("walled grid builds");

    for w in &walls {
        let v = field.get(&center_of(*w));
        assert_eq!((v.x, v.y), (0, 0));
    }

    let trail = walk(&field, cell(0, 1), 16);
    assert_eq!(*trail.last().unwrap(), cell(3, 1));
    for c in &trail {
        assert!(!walls.contains(c));
    }
}

#[test]
fn walls_outside_the_grid_do_not_block_it() {
    let walls = vec![cell(9, 9)];
    let field = FlowField::build_flow_field(&cell(1, 1), &walls, 3).expect("builds");
    let trail = walk(&field, cell(0, 0), 9);
    assert_eq!(*trail.last().unwrap(), cell(1, 1));
}
