use cmaze::cell::CellWall;
use cmaze::dims::Dims3D;
use cmaze::errors::{GenerationError, ReportCallbackError};
use cmaze::maze::Maze;
use cmaze::rnd_kruskals::RndKruskals;
use cmaze::walls::enumerate_walls;

type Silent = fn(usize, usize) -> Result<(), ReportCallbackError<(), ()>>;

fn wall_at(m: &Maze, x: i32, y: i32, z: i32, w: CellWall) -> bool {
    m.get_cell(Dims3D(x, y, z)).unwrap().get_wall(w)
}

fn passages_of(m: &Maze) -> Vec<(i32, i32, i32, CellWall)> {
    let Dims3D(w, h, d) = m.size();
    let mut found = Vec::new();
    for z in 0..d {
        for y in 0..h {
            for x in 0..w {
                for wall in [CellWall::Right, CellWall::Bottom, CellWall::Up] {
                    if !wall_at(m, x, y, z, wall) {
                        found.push((x, y, z, wall));
                    }
                }
            }
        }
    }
    found
}

fn floor_passage_count(m: &Maze, z: i32) -> usize {
    passages_of(m).iter().filter(|p| p.2 == z && p.3 != CellWall::Up).count()
}

fn links_of(m: &Maze, z: i32) -> Vec<(i32, i32)> {
    passages_of(m).iter().filter(|p| p.2 == z && p.3 == CellWall::Up).map(|p| (p.0, p.1)).collect()
}

fn all_walls() -> [CellWall; 6] {
    [
        CellWall::Left,
        CellWall::Right,
        CellWall::Top,
        CellWall::Bottom,
        CellWall::Up,
        CellWall::Down,
    ]
}

fn sides_agree(m: &Maze) -> bool {
    let Dims3D(w, h, d) = m.size();
    for z in 0..d {
        for y in 0..h {
            for x in 0..w {
                for wall in all_walls() {
                    let off = wall.to_coord();
                    let other = Dims3D(x + off.0, y + off.1, z + off.2);
                    let here = wall_at(m, x, y, z, wall);
                    match m.get_cell(other) {
                        Some(cell) => {
                            if cell.get_wall(wall.reverse_wall()) != here {
                                return false;
                            }
                        }
                        None => {
                            if !here {
                                return false;
                            }
                        }
                    }
                }
            }
        }
    }
    true
}

fn reached_cells(m: &Maze) -> usize {
    let Dims3D(w, h, d) = m.size();
    let index = |c: Dims3D| -> usize { (c.0 + w * (c.1 + h * c.2)) as usize };
    let mut seen = vec![false; (w * h * d) as usize];
    let mut stack = vec![Dims3D(0, 0, 0)];
    seen[0] = true;
    let mut count: usize = 1;
    while let Some(c) = stack.pop() {
        for wall in all_walls() {
            if !wall_at(m, c.0, c.1, c.2, wall) {
                let off = wall.to_coord();
                let next = Dims3D(c.0 + off.0, c.1 + off.1, c.2 + off.2);
                if !seen[index(next)] {
                    seen[index(next)] = true;
                    count += 1;
                    stack.push(next);
                }
            }
        }
    }
    count
}

fn is_spanning_tree(m: &Maze) -> bool {
    let Dims3D(w, h, d) = m.size();
    let cells = (w * h * d) as usize;
    sides_agree(m) && reached_cells(m) == cells && passages_of(m).len() == cells - 1
}

#[test]
fn three_by_three_is_a_spanning_tree() {
    let maze = RndKruskals::generate(Dims3D(3, 3, 1), false, None::<Silent>).unwrap();
    assert_eq!(maze.width(), 3);
    assert_eq!(maze.height(), 3);
    assert_eq!(maze.depth(), 1);
    assert_eq!(maze.size(), Dims3D(3, 3, 1));
    assert_eq!(passages_of(&maze).len(), 8);
    assert_eq!(reached_cells(&maze), 9);
    assert!(sides_agree(&maze));
}

#[test]
fn every_size_gives_a_spanning_tree() {
    let sizes = [
        Dims3D(1, 1, 1),
        Dims3D(2, 1, 1),
        Dims3D(1, 7, 1),
        Dims3D(1, 1, 5),
        Dims3D(5, 4, 1),
        Dims3D(2, 2, 2),
        Dims3D(5, 4, 3),
        Dims3D(10, 10, 2),
    ];
    for size in sizes {
        let maze = RndKruskals::generate(size, false, None::<Silent>).unwrap();
        assert_eq!(maze.size(), size);
        assert!(is_spanning_tree(&maze), "size {:?}", size);
    }
}

#[test]
fn single_cell_has_all_walls() {
    let maze = RndKruskals::generate(Dims3D(1, 1, 1), false, None::<Silent>).unwrap();
    for wall in all_walls() {
        assert!(wall_at(&maze, 0, 0, 0, wall));
    }
    assert_eq!(passages_of(&maze).len(), 0);
}

#[test]
fn generate_individual_gives_a_spanning_tree() {
    let maze = RndKruskals::generate_individual(Dims3D(4, 3, 2), None::<Silent>).unwrap();
    assert_eq!(maze.size(), Dims3D(4, 3, 2));
    assert!(is_spanning_tree(&maze));
    assert_eq!(passages_of(&maze).len(), 23);
}

#[test]
fn run_keeps_the_callback_for_the_caller() {
    let mut calls: usize = 0;
    let mut callback = Some(|_done: usize, _total: usize| -> Result<(), ReportCallbackError<(), ()>> {
        calls += 1;
        Ok(())
    });
    let first = RndKruskals::run(Dims3D(3, 2, 1), &mut callback).unwrap();
    let second = RndKruskals::run(Dims3D(3, 2, 1), &mut callback).unwrap();
    assert!(callback.is_some());
    drop(callback);
    assert!(is_spanning_tree(&first));
    assert!(is_spanning_tree(&second));
    assert_eq!(calls, 10);
}

#[test]
fn floored_floors_are_trees_with_one_link_each() {
    let size = Dims3D(4, 3, 3);
    let maze = RndKruskals::generate(size, true, None::<Silent>).unwrap();
    assert_eq!(maze.size(), size);
    assert!(sides_agree(&maze));
    for z in 0..3 {
        assert_eq!(floor_passage_count(&maze, z), 4 * 3 - 1);
    }
    for z in 0..2 {
        let links = links_of(&maze, z);
        assert_eq!(links.len(), 1);
        let (x, y) = links[0];
        assert!(0 <= x && x < 4 && 0 <= y && y < 3);
        assert!(!wall_at(&maze, x, y, z + 1, CellWall::Down));
    }
    assert_eq!(links_of(&maze, 2).len(), 0);
    assert_eq!(reached_cells(&maze), 36);
    assert_eq!(passages_of(&maze).len(), 3 * 11 + 2);
}

#[test]
fn floored_cells_store_their_own_floor() {
    let maze = RndKruskals::generate(Dims3D(2, 2, 3), true, None::<Silent>).unwrap();
    for z in 0..3 {
        for y in 0..2 {
            for x in 0..2 {
                let cell = maze.get_cell(Dims3D(x, y, z)).unwrap();
                assert_eq!(cell.get_coord(), Dims3D(x, y, z));
            }
        }
    }
}

#[test]
fn floored_with_one_floor_is_a_plain_tree() {
    let maze = RndKruskals::generate(Dims3D(5, 5, 1), true, None::<Silent>).unwrap();
    assert!(is_spanning_tree(&maze));
    assert_eq!(passages_of(&maze).len(), 24);
}

#[test]
fn floored_single_column_tower() {
    let maze = RndKruskals::generate(Dims3D(1, 1, 4), true, None::<Silent>).unwrap();
    for z in 0..3 {
        assert_eq!(links_of(&maze, z), vec![(0, 0)]);
    }
    assert!(is_spanning_tree(&maze));
}

#[test]
fn zero_width_is_invalid() {
    for floored in [false, true] {
        let res = RndKruskals::generate(Dims3D(0, 4, 2), floored, None::<Silent>);
        assert!(matches!(res, Err(GenerationError::InvalidSize(Dims3D(0, 4, 2)))));
    }
}

#[test]
fn zero_height_is_invalid() {
    for floored in [false, true] {
        let res = RndKruskals::generate(Dims3D(3, 0, 2), floored, None::<Silent>);
        assert!(matches!(res, Err(GenerationError::InvalidSize(Dims3D(3, 0, 2)))));
    }
}

#[test]
fn zero_depth_is_invalid() {
    for floored in [false, true] {
        let res = RndKruskals::generate(Dims3D(3, 4, 0), floored, None::<Silent>);
        assert!(matches!(res, Err(GenerationError::InvalidSize(Dims3D(3, 4, 0)))));
    }
}

#[test]
fn all_zero_is_invalid() {
    let res = RndKruskals::generate(Dims3D(0, 0, 0), false, None::<Silent>);
    assert!(matches!(res, Err(GenerationError::InvalidSize(Dims3D(0, 0, 0)))));
}

#[test]
fn a_zero_component_decides_before_the_others_are_read() {
    for size in [Dims3D(-1, 0, 5), Dims3D(0, -7, -7), Dims3D(i32::MAX, i32::MAX, 0)] {
        for floored in [false, true] {
            match RndKruskals::generate(size, floored, None::<Silent>) {
                Err(GenerationError::InvalidSize(s)) => assert_eq!(s, size),
                _ => panic!("expected an invalid size"),
            }
        }
    }
}

#[test]
fn generate_individual_rejects_zero_sizes() {
    for size in [Dims3D(0, 2, 2), Dims3D(2, 0, 2), Dims3D(2, 2, 0)] {
        let res = RndKruskals::generate_individual(size, None::<Silent>);
        match res {
            Err(GenerationError::InvalidSize(s)) => assert_eq!(s, size),
            _ => panic!("expected an invalid size"),
        }
    }
}

#[test]
fn invalid_size_never_calls_back() {
    let mut calls: usize = 0;
    let res = RndKruskals::generate(
        Dims3D(0, 3, 3),
        false,
        Some(|_d: usize, _t: usize| -> Result<(), ReportCallbackError<(), ()>> {
            calls += 1;
            Ok(())
        }),
    );
    assert!(matches!(res, Err(GenerationError::InvalidSize(_))));
    assert_eq!(calls, 0);
}

#[test]
fn progress_is_reported_once_per_opened_passage() {
    let size = Dims3D(4, 3, 2);
    let total: usize = (3 * 3 + 4 * 2) * 2 + 4 * 3 * 1;
    assert_eq!(total, 46);
    let mut calls: Vec<(usize, usize)> = Vec::new();
    let maze = RndKruskals::generate(
        size,
        false,
        Some(|done: usize, of: usize| -> Result<(), ReportCallbackError<(), ()>> {
            calls.push((done, of));
            Ok(())
        }),
    )
    .unwrap();
    assert!(is_spanning_tree(&maze));
    assert_eq!(calls.len(), 4 * 3 * 2 - 1);
    assert!(calls[0].0 >= 1);
    for pair in calls.windows(2) {
        assert!(pair[0].0 < pair[1].0);
    }
    for call in &calls {
        assert_eq!(call.1, total);
        assert!(call.0 <= total);
    }
}

#[test]
fn first_report_of_a_run_is_one() {
    let mut first: Option<usize> = None;
    RndKruskals::generate(
        Dims3D(3, 3, 1),
        false,
        Some(|done: usize, _of: usize| -> Result<(), ReportCallbackError<(), ()>> {
            if first.is_none() {
                first = Some(done);
            }
            Ok(())
        }),
    )
    .unwrap();
    assert_eq!(first, Some(1));
}

#[test]
fn floored_progress_restarts_on_each_floor() {
    let size = Dims3D(3, 3, 4);
    let total: usize = 3 * 2 + 3 * 2;
    let mut calls: Vec<(usize, usize)> = Vec::new();
    RndKruskals::generate(
        size,
        true,
        Some(|done: usize, of: usize| -> Result<(), ReportCallbackError<(), ()>> {
            calls.push((done, of));
            Ok(())
        }),
    )
    .unwrap();
    assert_eq!(calls.len(), 4 * (3 * 3 - 1));
    for floor in calls.chunks(8) {
        assert_eq!(floor[0].0, 1);
        for pair in floor.windows(2) {
            assert!(pair[0].0 < pair[1].0);
        }
        for call in floor {
            assert_eq!(call.1, total);
            assert!(call.0 <= total);
        }
    }
}

#[test]
fn abort_on_the_nth_report_stops_the_run() {
    let mut calls: usize = 0;
    let res = RndKruskals::generate(
        Dims3D(5, 5, 2),
        false,
        Some(|_done: usize, _of: usize| -> Result<(), ReportCallbackError<String, u32>> {
            calls += 1;
            if calls == 7 {
                Err(ReportCallbackError::AbortGeneration(4711))
            } else {
                Ok(())
            }
        }),
    );
    match res {
        Err(GenerationError::AbortGeneration(payload)) => assert_eq!(payload, 4711),
        _ => panic!("expected an abort"),
    }
    assert_eq!(calls, 7);
}

#[test]
fn callback_failure_is_handed_on() {
    let mut calls: usize = 0;
    let res = RndKruskals::generate_individual(
        Dims3D(3, 3, 3),
        Some(|_done: usize, _of: usize| -> Result<(), ReportCallbackError<String, u32>> {
            calls += 1;
            Err(ReportCallbackError::ReportFunctionError(String::from("screen gone")))
        }),
    );
    match res {
        Err(GenerationError::ReportFunctionError(payload)) => assert_eq!(payload, "screen gone"),
        _ => panic!("expected a callback failure"),
    }
    assert_eq!(calls, 1);
}

#[test]
fn floored_abort_on_a_later_floor() {
    let mut calls: usize = 0;
    let res = RndKruskals::generate(
        Dims3D(2, 2, 3),
        true,
        Some(|_done: usize, _of: usize| -> Result<(), ReportCallbackError<(), &'static str>> {
            calls += 1;
            if calls == 5 {
                Err(ReportCallbackError::AbortGeneration("enough"))
            } else {
                Ok(())
            }
        }),
    );
    assert!(matches!(res, Err(GenerationError::AbortGeneration("enough"))));
    assert_eq!(calls, 5);
}

#[test]
fn single_cell_reports_nothing() {
    let mut calls: usize = 0;
    RndKruskals::generate(
        Dims3D(1, 1, 1),
        false,
        Some(|_d: usize, _t: usize| -> Result<(), ReportCallbackError<(), ()>> {
            calls += 1;
            Ok(())
        }),
    )
    .unwrap();
    assert_eq!(calls, 0);
}

#[test]
fn carve_follows_the_given_order() {
    let walls = vec![
        (Dims3D(0, 0, 0), CellWall::Right),
        (Dims3D(0, 0, 0), CellWall::Bottom),
        (Dims3D(1, 0, 0), CellWall::Bottom),
        (Dims3D(0, 1, 0), CellWall::Right),
    ];
    let mut calls: Vec<(usize, usize)> = Vec::new();
    let mut callback = Some(|done: usize, of: usize| -> Result<(), ReportCallbackError<(), ()>> {
        calls.push((done, of));
        Ok(())
    });
    let maze = RndKruskals::carve(Dims3D(2, 2, 1), walls, &mut callback).unwrap();
    drop(callback);
    assert_eq!(
        passages_of(&maze),
        vec![
            (0, 0, 0, CellWall::Bottom),
            (1, 0, 0, CellWall::Bottom),
            (0, 1, 0, CellWall::Right),
        ]
    );
    assert!(wall_at(&maze, 0, 0, 0, CellWall::Right));
    assert!(wall_at(&maze, 1, 0, 0, CellWall::Left));
    assert!(!wall_at(&maze, 0, 1, 0, CellWall::Top));
    assert!(!wall_at(&maze, 1, 1, 0, CellWall::Top));
    assert!(!wall_at(&maze, 1, 1, 0, CellWall::Left));
    assert!(sides_agree(&maze));
    assert_eq!(calls, vec![(1, 4), (2, 4), (3, 4)]);
}

#[test]
fn carve_in_enumeration_order() {
    let size = Dims3D(3, 2, 1);
    let walls = enumerate_walls(size);
    assert_eq!(walls.len(), 7);
    let mut calls: Vec<usize> = Vec::new();
    let mut callback = Some(|done: usize, _of: usize| -> Result<(), ReportCallbackError<(), ()>> {
        calls.push(done);
        Ok(())
    });
    let maze = RndKruskals::carve(size, walls, &mut callback).unwrap();
    drop(callback);
    // The list is [00R, 00B, 10R, 10B, 20B, 01R, 11R].  Consumed from the
    // back, the fifth and the seventh candidate find their cells joined.
    assert_eq!(
        passages_of(&maze),
        vec![
            (0, 0, 0, CellWall::Bottom),
            (1, 0, 0, CellWall::Bottom),
            (2, 0, 0, CellWall::Bottom),
            (0, 1, 0, CellWall::Right),
            (1, 1, 0, CellWall::Right),
        ]
    );
    assert_eq!(calls, vec![1, 2, 3, 4, 6]);
}

#[test]
fn carve_with_a_partial_list_leaves_the_rest_walled() {
    let walls = vec![(Dims3D(1, 0, 0), CellWall::Right)];
    let mut none = None::<Silent>;
    let maze = RndKruskals::carve(Dims3D(3, 1, 1), walls, &mut none).unwrap();
    assert_eq!(passages_of(&maze), vec![(1, 0, 0, CellWall::Right)]);
    assert_eq!(reached_cells(&maze), 1);
}

#[test]
fn carve_drops_a_repeated_candidate() {
    let walls = vec![(Dims3D(0, 0, 0), CellWall::Up), (Dims3D(0, 0, 0), CellWall::Up)];
    let mut calls: Vec<(usize, usize)> = Vec::new();
    let mut callback = Some(|done: usize, of: usize| -> Result<(), ReportCallbackError<(), ()>> {
        calls.push((done, of));
        Ok(())
    });
    let maze = RndKruskals::carve(Dims3D(1, 1, 2), walls, &mut callback).unwrap();
    drop(callback);
    assert_eq!(passages_of(&maze), vec![(0, 0, 0, CellWall::Up)]);
    assert!(!wall_at(&maze, 0, 0, 1, CellWall::Down));
    assert_eq!(calls, vec![(1, 2)]);
}

#[test]
fn carve_stops_at_the_first_error() {
    let walls = enumerate_walls(Dims3D(4, 1, 1));
    let mut calls: Vec<usize> = Vec::new();
    let mut callback = Some(|done: usize, _of: usize| -> Result<(), ReportCallbackError<u8, ()>> {
        calls.push(done);
        if done == 2 {
            Err(ReportCallbackError::ReportFunctionError(9))
        } else {
            Ok(())
        }
    });
    let res = RndKruskals::carve(Dims3D(4, 1, 1), walls, &mut callback);
    drop(callback);
    assert!(matches!(res, Err(GenerationError::ReportFunctionError(9))));
    assert_eq!(calls, vec![1, 2]);
}

#[test]
fn generation_shuffles_the_candidates() {
    let size = Dims3D(6, 6, 1);
    let mut none = None::<Silent>;
    let plain = RndKruskals::carve(size, enumerate_walls(size), &mut none).unwrap();
    let expected = passages_of(&plain);
    let mut differs = false;
    for _ in 0..20 {
        let maze = RndKruskals::generate(size, false, None::<Silent>).unwrap();
        assert!(is_spanning_tree(&maze));
        if passages_of(&maze) != expected {
            differs = true;
        }
    }
    assert!(differs);
}

#[test]
fn floor_links_are_drawn_within_the_floor() {
    for _ in 0..20 {
        let maze = RndKruskals::generate(Dims3D(3, 2, 2), true, None::<Silent>).unwrap();
        let links = links_of(&maze, 0);
        assert_eq!(links.len(), 1);
        assert!(links[0].0 < 3 && links[0].1 < 2);
    }
}

#[test]
fn compose_floors_links_the_given_columns() {
    let mut none = None::<Silent>;
    let fsize = Dims3D(2, 2, 1);
    let floors = vec![
        RndKruskals::carve(fsize, enumerate_walls(fsize), &mut none).unwrap(),
        RndKruskals::carve(fsize, Vec::new(), &mut none).unwrap(),
        RndKruskals::carve(fsize, enumerate_walls(fsize), &mut none).unwrap(),
    ];
    let maze = RndKruskals::compose_floors(floors, vec![(1, 0), (0, 1)]);
    assert_eq!(maze.size(), Dims3D(2, 2, 3));
    assert!(sides_agree(&maze));
    assert_eq!(links_of(&maze, 0), vec![(1, 0)]);
    assert_eq!(links_of(&maze, 1), vec![(0, 1)]);
    assert_eq!(links_of(&maze, 2), Vec::<(i32, i32)>::new());
    assert!(!wall_at(&maze, 1, 0, 1, CellWall::Down));
    assert!(!wall_at(&maze, 0, 1, 2, CellWall::Down));
    assert!(wall_at(&maze, 0, 0, 0, CellWall::Down));
    assert!(wall_at(&maze, 0, 1, 2, CellWall::Up));
    assert_eq!(floor_passage_count(&maze, 0), 3);
    assert_eq!(floor_passage_count(&maze, 1), 0);
    assert_eq!(floor_passage_count(&maze, 2), 3);
    for z in 0..3 {
        for y in 0..2 {
            for x in 0..2 {
                assert_eq!(maze.get_cell(Dims3D(x, y, z)).unwrap().get_coord(), Dims3D(x, y, z));
            }
        }
    }
}

#[test]
fn compose_floors_may_link_one_column_twice() {
    let mut none = None::<Silent>;
    let fsize = Dims3D(2, 1, 1);
    let floors = vec![
        RndKruskals::carve(fsize, enumerate_walls(fsize), &mut none).unwrap(),
        RndKruskals::carve(fsize, enumerate_walls(fsize), &mut none).unwrap(),
        RndKruskals::carve(fsize, enumerate_walls(fsize), &mut none).unwrap(),
    ];
    let maze = RndKruskals::compose_floors(floors, vec![(1, 0), (1, 0)]);
    assert_eq!(links_of(&maze, 0), vec![(1, 0)]);
    assert_eq!(links_of(&maze, 1), vec![(1, 0)]);
    assert!(!wall_at(&maze, 1, 0, 1, CellWall::Up));
    assert!(!wall_at(&maze, 1, 0, 1, CellWall::Down));
    assert!(wall_at(&maze, 0, 0, 1, CellWall::Up));
    assert!(is_spanning_tree(&maze));
}

#[test]
fn compose_single_floor_changes_nothing() {
    let mut none = None::<Silent>;
    let fsize = Dims3D(3, 1, 1);
    let floor = RndKruskals::carve(fsize, enumerate_walls(fsize), &mut none).unwrap();
    let maze = RndKruskals::compose_floors(vec![floor], Vec::new());
    assert_eq!(maze.size(), fsize);
    assert_eq!(
        passages_of(&maze),
        vec![(0, 0, 0, CellWall::Right), (1, 0, 0, CellWall::Right)]
    );
}
