use cmaze::cell::{Cell, CellWall};
use cmaze::dims::{cell_number, Dims, Dims3D};
use cmaze::errors::{GenerationError, ReportCallbackError};
use cmaze::maze::Maze;
use cmaze::partition::{absorb, set_contains, Partition};
use cmaze::walls::enumerate_walls;
use std::collections::HashSet;

fn six_walls() -> [CellWall; 6] {
    [
        CellWall::Left,
        CellWall::Right,
        CellWall::Top,
        CellWall::Bottom,
        CellWall::Up,
        CellWall::Down,
    ]
}

#[test]
fn wall_offsets() {
    assert_eq!(CellWall::Left.to_coord(), Dims3D(-1, 0, 0));
    assert_eq!(CellWall::Right.to_coord(), Dims3D(1, 0, 0));
    assert_eq!(CellWall::Top.to_coord(), Dims3D(0, -1, 0));
    assert_eq!(CellWall::Bottom.to_coord(), Dims3D(0, 1, 0));
    assert_eq!(CellWall::Up.to_coord(), Dims3D(0, 0, 1));
    assert_eq!(CellWall::Down.to_coord(), Dims3D(0, 0, -1));
}

#[test]
fn wall_reverses() {
    assert_eq!(CellWall::Left.reverse_wall(), CellWall::Right);
    assert_eq!(CellWall::Right.reverse_wall(), CellWall::Left);
    assert_eq!(CellWall::Top.reverse_wall(), CellWall::Bottom);
    assert_eq!(CellWall::Bottom.reverse_wall(), CellWall::Top);
    assert_eq!(CellWall::Up.reverse_wall(), CellWall::Down);
    assert_eq!(CellWall::Down.reverse_wall(), CellWall::Up);
}

#[test]
fn reverse_wall_leads_back() {
    for wall in six_walls() {
        let there = wall.to_coord();
        let back = wall.reverse_wall().to_coord();
        assert_eq!(Dims3D(there.0 + back.0, there.1 + back.1, there.2 + back.2), Dims3D(0, 0, 0));
        assert_eq!(wall.reverse_wall().reverse_wall(), wall);
    }
}

#[test]
fn new_cell_is_fully_walled() {
    let cell = Cell::new(Dims3D(4, 5, 6));
    assert_eq!(cell.get_coord(), Dims3D(4, 5, 6));
    for wall in six_walls() {
        assert!(cell.get_wall(wall));
    }
}

#[test]
fn removing_a_wall_leaves_the_others() {
    for gone in six_walls() {
        let mut cell = Cell::new(Dims3D(1, 2, 3));
        cell.remove_wall(gone);
        for wall in six_walls() {
            assert_eq!(cell.get_wall(wall), wall != gone);
        }
        assert_eq!(cell.get_coord(), Dims3D(1, 2, 3));
    }
}

#[test]
fn removed_wall_stays_removed() {
    let mut cell = Cell::new(Dims3D(0, 0, 0));
    cell.remove_wall(CellWall::Top);
    cell.remove_wall(CellWall::Top);
    cell.remove_wall(CellWall::Down);
    assert!(!cell.get_wall(CellWall::Top));
    assert!(!cell.get_wall(CellWall::Down));
    assert!(cell.get_wall(CellWall::Left));
}

#[test]
fn new_maze_is_fully_walled() {
    let maze = Maze::new::<(), ()>(Dims3D(3, 2, 4)).unwrap();
    assert_eq!(maze.size(), Dims3D(3, 2, 4));
    assert_eq!(maze.width(), 3);
    assert_eq!(maze.height(), 2);
    assert_eq!(maze.depth(), 4);
    let mut cells: usize = 0;
    for z in 0..4 {
        for y in 0..2 {
            for x in 0..3 {
                let cell = maze.get_cell(Dims3D(x, y, z)).unwrap();
                assert_eq!(cell.get_coord(), Dims3D(x, y, z));
                for wall in six_walls() {
                    assert!(cell.get_wall(wall));
                }
                cells += 1;
            }
        }
    }
    assert_eq!(cells, 24);
}

#[test]
fn new_maze_rejects_zero_sizes() {
    for size in [Dims3D(0, 1, 1), Dims3D(1, 0, 1), Dims3D(1, 1, 0), Dims3D(0, 0, 0)] {
        match Maze::new::<(), ()>(size) {
            Err(GenerationError::InvalidSize(s)) => assert_eq!(s, size),
            _ => panic!("expected an invalid size"),
        }
    }
}

#[test]
fn cells_outside_the_grid_are_absent() {
    let maze = Maze::new::<(), ()>(Dims3D(3, 2, 1)).unwrap();
    assert!(maze.is_in_bounds(Dims3D(0, 0, 0)));
    assert!(maze.is_in_bounds(Dims3D(2, 1, 0)));
    for pos in [
        Dims3D(3, 0, 0),
        Dims3D(0, 2, 0),
        Dims3D(0, 0, 1),
        Dims3D(-1, 0, 0),
        Dims3D(0, -1, 0),
        Dims3D(0, 0, -1),
        Dims3D(i32::MAX, 0, 0),
        Dims3D(i32::MIN, i32::MIN, i32::MIN),
    ] {
        assert!(!maze.is_in_bounds(pos));
        assert!(maze.get_cell(pos).is_none());
    }
}

#[test]
fn cell_numbers_count_rows_then_floors() {
    let size = Dims3D(4, 3, 2);
    assert_eq!(cell_number(size, Dims3D(0, 0, 0)), 0);
    assert_eq!(cell_number(size, Dims3D(3, 0, 0)), 3);
    assert_eq!(cell_number(size, Dims3D(0, 1, 0)), 4);
    assert_eq!(cell_number(size, Dims3D(2, 2, 0)), 10);
    assert_eq!(cell_number(size, Dims3D(0, 0, 1)), 12);
    assert_eq!(cell_number(size, Dims3D(3, 2, 1)), 23);
    let mut next: usize = 0;
    for z in 0..2 {
        for y in 0..3 {
            for x in 0..4 {
                assert_eq!(cell_number(size, Dims3D(x, y, z)), next);
                next += 1;
            }
        }
    }
}

#[test]
fn candidate_walls_of_a_square() {
    assert_eq!(
        enumerate_walls(Dims3D(2, 2, 1)),
        vec![
            (Dims3D(0, 0, 0), CellWall::Right),
            (Dims3D(0, 0, 0), CellWall::Bottom),
            (Dims3D(1, 0, 0), CellWall::Bottom),
            (Dims3D(0, 1, 0), CellWall::Right),
        ]
    );
}

#[test]
fn candidate_walls_of_a_cube() {
    assert_eq!(
        enumerate_walls(Dims3D(2, 2, 2)),
        vec![
            (Dims3D(0, 0, 0), CellWall::Right),
            (Dims3D(0, 0, 0), CellWall::Bottom),
            (Dims3D(0, 0, 0), CellWall::Up),
            (Dims3D(1, 0, 0), CellWall::Bottom),
            (Dims3D(1, 0, 0), CellWall::Up),
            (Dims3D(0, 1, 0), CellWall::Right),
            (Dims3D(0, 1, 0), CellWall::Up),
            (Dims3D(1, 1, 0), CellWall::Up),
            (Dims3D(0, 0, 1), CellWall::Right),
            (Dims3D(0, 0, 1), CellWall::Bottom),
            (Dims3D(1, 0, 1), CellWall::Bottom),
            (Dims3D(0, 1, 1), CellWall::Right),
        ]
    );
}

#[test]
fn candidate_walls_of_a_single_cell() {
    assert_eq!(enumerate_walls(Dims3D(1, 1, 1)), Vec::new());
}

#[test]
fn candidate_wall_count_follows_the_formula() {
    for (w, h, d) in [(1, 1, 1), (3, 4, 2), (5, 1, 1), (1, 6, 2), (7, 5, 3)] {
        let walls = enumerate_walls(Dims3D(w, h, d));
        let expected = (h * (w - 1) + w * (h - 1)) * d + w * h * (d - 1);
        assert_eq!(walls.len(), expected as usize);
    }
    assert_eq!(enumerate_walls(Dims3D(3, 4, 2)).len(), 46);
}

#[test]
fn candidate_walls_are_distinct_inner_faces() {
    let size = Dims3D(3, 4, 2);
    let walls = enumerate_walls(size);
    let mut seen: HashSet<(Dims3D, CellWall)> = HashSet::new();
    for (cell, wall) in walls {
        assert!(matches!(wall, CellWall::Right | CellWall::Bottom | CellWall::Up));
        let off = wall.to_coord();
        let other = Dims3D(cell.0 + off.0, cell.1 + off.1, cell.2 + off.2);
        assert!(0 <= cell.0 && cell.0 < 3 && 0 <= cell.1 && cell.1 < 4 && 0 <= cell.2 && cell.2 < 2);
        assert!(other.0 < 3 && other.1 < 4 && other.2 < 2);
        assert!(seen.insert((cell, wall)));
    }
}

#[test]
fn singletons_hold_one_cell_each() {
    let p = Partition::singletons(5);
    assert_eq!(p.len(), 5);
    for k in 0..5 {
        for key in 0..5 {
            assert_eq!(p.set_holds(k, key), k == key);
        }
        assert_eq!(p.find(k), k);
    }
}

#[test]
fn empty_partition() {
    let p = Partition::singletons(0);
    assert_eq!(p.len(), 0);
}

#[test]
fn merge_moves_the_last_set_into_the_gap() {
    let mut p = Partition::singletons(5);
    p.merge(1, 3);
    assert_eq!(p.len(), 4);
    // Set 1 left, set 4 took its place, and cell 1 went to set 3.
    assert_eq!(p.find(0), 0);
    assert_eq!(p.find(4), 1);
    assert_eq!(p.find(2), 2);
    assert_eq!(p.find(3), 3);
    assert_eq!(p.find(1), 3);
    assert!(p.set_holds(3, 1) && p.set_holds(3, 3));
    assert!(!p.set_holds(1, 1));
}

#[test]
fn merge_into_the_last_set() {
    let mut p = Partition::singletons(4);
    p.merge(0, 3);
    assert_eq!(p.len(), 3);
    // The last set moved to index 0 and took cell 0 in.
    assert_eq!(p.find(3), 0);
    assert_eq!(p.find(0), 0);
    assert_eq!(p.find(1), 1);
    assert_eq!(p.find(2), 2);
}

#[test]
fn merge_of_the_last_set() {
    let mut p = Partition::singletons(4);
    p.merge(3, 1);
    assert_eq!(p.len(), 3);
    assert_eq!(p.find(3), 1);
    assert_eq!(p.find(1), 1);
    assert_eq!(p.find(0), 0);
    assert_eq!(p.find(2), 2);
}

#[test]
fn merging_down_to_one_set() {
    let mut p = Partition::singletons(6);
    while p.len() > 1 {
        p.merge(0, 1);
    }
    assert_eq!(p.len(), 1);
    for key in 0..6 {
        assert_eq!(p.find(key), 0);
    }
}

#[test]
fn join_merges_only_separate_cells() {
    let mut p = Partition::singletons(5);
    assert!(p.join(0, 1));
    assert_eq!(p.len(), 4);
    assert!(!p.join(1, 0));
    assert!(!p.join(0, 0));
    assert_eq!(p.len(), 4);
    assert!(p.join(3, 4));
    assert!(p.join(1, 4));
    assert_eq!(p.len(), 2);
    assert!(!p.join(0, 3));
    assert_eq!(p.find(0), p.find(3));
    assert_eq!(p.find(1), p.find(4));
    assert_ne!(p.find(2), p.find(0));
    assert!(p.join(2, 0));
    assert_eq!(p.len(), 1);
    for a in 0..5 {
        for b in 0..5 {
            assert!(!p.join(a, b));
        }
    }
}

#[test]
fn find_searches_a_large_partition() {
    let p = Partition::singletons(10_000);
    assert_eq!(p.find(0), 0);
    assert_eq!(p.find(4321), 4321);
    assert_eq!(p.find(9_999), 9_999);
}

#[test]
fn absorb_is_a_union() {
    let mut target: HashSet<usize> = [1, 2, 3].into_iter().collect();
    let other: HashSet<usize> = [3, 4].into_iter().collect();
    absorb(&mut target, &other);
    let expected: HashSet<usize> = [1, 2, 3, 4].into_iter().collect();
    assert_eq!(target, expected);
    assert_eq!(other.len(), 2);
    assert!(set_contains(&target, 4));
    assert!(!set_contains(&target, 5));
}

#[test]
fn callback_errors_convert() {
    let failed: GenerationError<u8, bool> = ReportCallbackError::ReportFunctionError(3).into();
    assert!(matches!(failed, GenerationError::ReportFunctionError(3)));
    let aborted: GenerationError<u8, bool> =
        GenerationError::from(ReportCallbackError::AbortGeneration(true));
    assert!(matches!(aborted, GenerationError::AbortGeneration(true)));
}

#[test]
fn dims_compare_by_component() {
    assert_eq!(Dims(1, 2), Dims(1, 2));
    assert_ne!(Dims(1, 2), Dims(2, 1));
    assert_eq!(Dims3D(1, 2, 3), Dims3D(1, 2, 3));
    assert_ne!(Dims3D(1, 2, 3), Dims3D(1, 2, 4));
}
