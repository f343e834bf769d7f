//! The randomized spanning-tree builder and the floor composer.

use vstd::prelude::*;
use rand::seq::SliceRandom;
use rand::Rng;
use crate::cell::CellWall;
use crate::dims::{cell_number, lemma_countable, lemma_number_bound, Dims3D};
use crate::floors::lemma_countable_floor;
use crate::errors::{GenerationError, ReportCallbackError};
use crate::floors::{
    floor_links, floor_passages, floor_size, floor_tree, grounded, lemma_floored_count,
    lemma_floored_spanning, one_link, raised_set,
};
use crate::graph::{far_end, Passage};
use crate::maze::Maze;
use crate::partition::{holds, merged, Partition};
use crate::spanning::{
    carved, covers_grid, is_shuffle, lemma_carved_connects, lemma_carved_grows,
    lemma_shuffle_covers, lemma_tracks_accept, lemma_tracks_reject, lemma_tracks_spanning,
    lemma_tracks_start, opens, reports, tracks,
};
use crate::walls::{enumerate_walls, valid_candidate, wall_count};

verus! {

/// Whether the callback `f` answered `Ok` to each of the first `upto` reports
/// of a run that consumes `order`.
pub open spec fn acknowledged<R, A, T: FnMut(usize, usize) -> Result<(), ReportCallbackError<R, A>>>(
    f: T,
    order: Seq<Passage>,
    upto: int,
) -> bool {
    forall|i: int|
        0 <= i < upto ==> call_ensures(
            f,
            (#[trigger] reports(order)[i] as usize, order.len() as usize),
            Ok::<(), ReportCallbackError<R, A>>(()),
        )
}

/// Whether a run that consumes `order` was stopped with error `e`: the
/// callback answered `Ok` to some first reports and then refused the next
/// one with an error whose payload `e` carries.
pub open spec fn stopped<R, A, T: FnMut(usize, usize) -> Result<(), ReportCallbackError<R, A>>>(
    f: T,
    order: Seq<Passage>,
    e: GenerationError<R, A>,
) -> bool {
    exists|i: int, r: ReportCallbackError<R, A>|
        0 <= i < reports(order).len() && acknowledged(f, order, i) && #[trigger] call_ensures(
            f,
            (reports(order)[i] as usize, order.len() as usize),
            Err::<(), ReportCallbackError<R, A>>(r),
        ) && e == GenerationError::of_report(r)
}

/// What a run on a grid of size `size` that consumes the candidates in
/// `order` from the back hands out: either the grid with exactly the passages
/// of `carved(order)` open, after the callback answered `Ok` to every report,
/// or the error with which the callback stopped the run.
pub open spec fn run_result<R, A, T: FnMut(usize, usize) -> Result<(), ReportCallbackError<R, A>>>(
    size: Dims3D,
    order: Seq<Passage>,
    callback: Option<T>,
    res: Result<Maze, GenerationError<R, A>>,
) -> bool {
    match res {
        Ok(m) => {
            &&& m.wf()
            &&& m.spec_size() == size
            &&& m.passages() == carved(order)
            &&& callback matches Some(f) ==> acknowledged(f, order, reports(order).len() as int)
        },
        Err(e) => callback matches Some(f) && stopped(f, order, e),
    }
}

/// rand's handle to the random number generator of the current thread.
/// Nothing is known of what it holds.
#[verifier::external_type_specification]
#[verifier::external_body]
pub struct ExThreadRng(rand::rngs::ThreadRng);

/// The random number generator of the current thread.
///
/// Calls rand's `thread_rng`.  Nothing is claimed of the generator.  rand
/// seeds it from the operating system on first use and panics if that yields
/// no seed.
#[verifier::external_body]
fn thread_rng() -> rand::rngs::ThreadRng {
    rand::thread_rng()
}

/// Shuffles `walls` in place.
///
/// Calls rand's `SliceRandom::shuffle`.  The contract claims what holds of
/// every outcome: the shuffle only swaps entries, so the list holds
/// afterwards what it held before.  Nothing is claimed of the order.
#[verifier::external_body]
fn shuffle(walls: &mut Vec<(Dims3D, CellWall)>, rng: &mut rand::rngs::ThreadRng)
    ensures
        final(walls)@.to_multiset() == old(walls)@.to_multiset(),
{
    walls.shuffle(rng);
}

/// A random number below `n`.
///
/// Calls rand's `Rng::gen_range` with the range `0..n`.  That call panics on
/// an empty range, which `n > 0` leaves out; the contract claims what holds
/// of every outcome: the number lies in the range.
#[verifier::external_body]
fn random_below(rng: &mut rand::rngs::ThreadRng, n: usize) -> (r: usize)
    requires
        n > 0,
    ensures
        r < n,
{
    rng.gen_range(0..n)
}

/// Whether floor `z` of a grid with the open passages `open` came out of a
/// complete run on the single floor, every report of which the callback
/// answered with `Ok`.
pub open spec fn floor_run<R, A, T: FnMut(usize, usize) -> Result<(), ReportCallbackError<R, A>>>(
    size: Dims3D,
    callback: Option<T>,
    open: Set<Passage>,
    z: int,
) -> bool {
    exists|order: Seq<Passage>| #[trigger]
        is_shuffle(floor_size(size), order) && floor_passages(open, z) == raised_set(
            carved(order),
            z,
        ) && (callback matches Some(f) ==> acknowledged::<R, A, T>(
            f,
            order,
            reports(order).len() as int,
        ))
}

/// Whether the callback `f` saw the runs on the floors below through, each a
/// complete run over one of the shuffles `earlier`, and then stopped the run
/// over `order` on the next floor with error `e`.
pub open spec fn stopped_on_floor<R, A, T: FnMut(usize, usize) -> Result<(), ReportCallbackError<R, A>>>(
    fsize: Dims3D,
    f: T,
    earlier: Seq<Seq<Passage>>,
    order: Seq<Passage>,
    e: GenerationError<R, A>,
) -> bool {
    &&& forall|k: int|
        0 <= k < earlier.len() ==> is_shuffle(fsize, #[trigger] earlier[k]) && acknowledged::<
            R,
            A,
            T,
        >(f, earlier[k], reports(earlier[k]).len() as int)
    &&& is_shuffle(fsize, order)
    &&& stopped(f, order, e)
}

/// What a floored generation on a grid of size `size` hands out: either a
/// grid each floor of which came out of a complete run of its own, with
/// exactly one passage leading up from every floor but the last, or the
/// error with which the callback stopped the run on some floor, after it had
/// seen the runs on the floors below through.
pub open spec fn floored_result<R, A, T: FnMut(usize, usize) -> Result<(), ReportCallbackError<R, A>>>(
    size: Dims3D,
    callback: Option<T>,
    res: Result<Maze, GenerationError<R, A>>,
) -> bool {
    match res {
        Ok(m) => {
            &&& m.wf()
            &&& m.spec_size() == size
            &&& forall|z: int|
                0 <= z < size.2 ==> #[trigger] floor_run::<R, A, T>(size, callback, m.passages(), z)
            &&& forall|z: int| 0 <= z < size.2 - 1 ==> #[trigger] one_link(size, m.passages(), z)
        },
        Err(e) => callback matches Some(f) && exists|
            earlier: Seq<Seq<Passage>>,
            order: Seq<Passage>,
        |
            earlier.len() < size.2 && #[trigger] stopped_on_floor(
                floor_size(size),
                f,
                earlier,
                order,
                e,
            ),
    }
}

/// Whether `floor` came out of a complete run on a single floor of size
/// `fsize`, every report of which the callback answered with `Ok`.
pub open spec fn floor_made<R, A, T: FnMut(usize, usize) -> Result<(), ReportCallbackError<R, A>>>(
    fsize: Dims3D,
    callback: Option<T>,
    floor: Maze,
) -> bool {
    exists|order: Seq<Passage>| #[trigger]
        is_shuffle(fsize, order) && run_result::<R, A, T>(
            fsize,
            order,
            callback,
            Ok::<Maze, GenerationError<R, A>>(floor),
        )
}

/// Whether the wall on face `f` of the cell at `c` stands in the grid
/// stacked from `floors` and linked at the columns `links`: the walls within
/// a floor are those of the floor, and between floor `z` and the floor above
/// only the wall in column `links[z]` is taken away.
pub open spec fn composed_wall(
    floors: Seq<Maze>,
    links: Seq<(usize, usize)>,
    c: Dims3D,
    f: CellWall,
) -> bool {
    match f {
        CellWall::Up => !(c.2 < links.len() && links[c.2 as int] == (c.0 as usize, c.1 as usize)),
        CellWall::Down => !(1 <= c.2 <= links.len() && links[c.2 - 1] == (
            c.0 as usize,
            c.1 as usize,
        )),
        _ => floors[c.2 as int].wall(grounded(c), f),
    }
}

/// The second argument of every progress report of a generation: the number
/// of candidate walls of the grid, or of one floor in floored mode.
pub open spec fn report_total(size: Dims3D, floored: bool) -> int {
    if floored && size.2 > 1 {
        wall_count(floor_size(size))
    } else {
        wall_count(size)
    }
}

/// Stacking floors that each came out of a complete run, and linking them at
/// one column per pair of adjacent floors, gives what a floored generation
/// hands out.
pub proof fn lemma_composed_floors<R, A, T: FnMut(usize, usize) -> Result<(), ReportCallbackError<R, A>>>(
    size: Dims3D,
    floors: Seq<Maze>,
    links: Seq<(usize, usize)>,
    callback: Option<T>,
    m: Maze,
)
    requires
        size.is_size(),
        floors.len() == size.2,
        links.len() == size.2 - 1,
        forall|z: int|
            0 <= z < floors.len() ==> (#[trigger] floors[z]).wf() && floors[z].spec_size()
                == floor_size(size) && floor_made::<R, A, T>(floor_size(size), callback, floors[z]),
        forall|z: int|
            0 <= z < links.len() ==> (#[trigger] links[z]).0 < size.0 && links[z].1 < size.1,
        m.wf(),
        m.spec_size() == size,
        forall|c: Dims3D, f: CellWall|
            m.in_bounds(c) ==> #[trigger] m.wall(c, f) == composed_wall(floors, links, c, f),
    ensures
        floored_result(size, callback, Ok::<Maze, GenerationError<R, A>>(m)),
{
    let fsize = floor_size(size);
    let open = m.passages();
    assert forall|z: int| 0 <= z < size.2 implies #[trigger] floor_run::<R, A, T>(
        size,
        callback,
        open,
        z,
    ) by {
        let fl = floors[z];
        let order = choose|order: Seq<Passage>| #[trigger]
            is_shuffle(fsize, order) && run_result::<R, A, T>(
                fsize,
                order,
                callback,
                Ok::<Maze, GenerationError<R, A>>(fl),
            );
        // Within the floor the grid has the walls of `fl`, and no passage
        // of `fl` leads up, since `fl` has one floor only.
        assert forall|p: Passage| raised_set(fl.passages(), z).contains(p) implies p.1
            != CellWall::Up by {
            assert(!fl.in_bounds(grounded(p.0).step(CellWall::Up)));
        }
        assert(floor_passages(open, z) =~= raised_set(carved(order), z));
    }
    assert forall|z: int| 0 <= z < size.2 - 1 implies #[trigger] one_link(size, open, z) by {
        let c = Dims3D(links[z].0 as i32, links[z].1 as i32, z as i32);
        assert(open.contains((c, CellWall::Up)));
        assert(floor_links(open, z) =~= set![(c, CellWall::Up)]);
    }
}

/// The randomized Kruskal maze generator.
pub struct RndKruskals {}

impl RndKruskals {
    /// Generates a maze of size `size`.
    ///
    /// In floored mode, on a grid of more than one floor, every floor is
    /// generated by a run of its own, and each pair of adjacent floors is
    /// linked by one passage in a column picked at random.  Otherwise one
    /// run carves the whole grid as a single spanning tree.  Either way the
    /// open passages connect all cells and number one less than the cells.
    ///
    /// Fails with `InvalidSize` exactly if some component of `size` is zero,
    /// and otherwise only with an error of the callback.
    pub fn generate<R, A, T: FnMut(usize, usize) -> Result<(), ReportCallbackError<R, A>>>(
        size: Dims3D,
        floored: bool,
        report_progress: Option<T>,
    ) -> (res: Result<Maze, GenerationError<R, A>>)
        requires
            size.is_request(),
            report_progress matches Some(f) ==> forall|done: usize, total: usize|
                1 <= done <= total == report_total(size, floored) ==> call_requires(
                    f,
                    (done, total),
                ),
        ensures
            size.has_zero() ==> res == Err::<Maze, GenerationError<R, A>>(
                GenerationError::InvalidSize(size),
            ),
            !size.has_zero() && !(floored && size.2 > 1) ==> exists|order: Seq<Passage>| #[trigger]
                is_shuffle(size, order) && run_result(size, order, report_progress, res),
            !size.has_zero() && floored && size.2 > 1 ==> floored_result(size, report_progress, res),
            !size.has_zero() ==> (res matches Ok(m) ==> m.wf() && m.spec_size() == size
                && m.is_connected() && m.passages().len() == size.volume() - 1),
            !size.has_zero() && floored && size.2 > 1 ==> (res matches Ok(m) ==> (forall|z: int|
                0 <= z < size.2 ==> (#[trigger] floor_passages(m.passages(), z)).len()
                    == floor_size(size).volume() - 1) && (forall|z: int|
                0 <= z < size.2 - 1 ==> (#[trigger] floor_links(m.passages(), z)).len() == 1)),
    {
        if size.0 == 0 || size.1 == 0 || size.2 == 0 {
            return Err(GenerationError::InvalidSize(size));
        }
        let Dims3D(w, h, d) = size;
        let mut callback = report_progress;
        if floored && d > 1 {
            let fsize = Dims3D(w, h, 1);
            proof {
                lemma_countable(size);
                lemma_countable_floor(size);
            }
            let mut floors: Vec<Maze> = Vec::new();
            let ghost mut orders: Seq<Seq<Passage>> = Seq::empty();
            let mut z: i32 = 0;
            while z < d
                invariant
                    size == Dims3D(w, h, d),
                    size.is_size(),
                    fsize == floor_size(size),
                    fsize.is_countable(),
                    floored && d > 1,
                    0 <= z <= d,
                    floors.len() == z,
                    callback == report_progress,
                    callback matches Some(f) ==> forall|done: usize, total: usize|
                        1 <= done <= total == wall_count(fsize) ==> call_requires(f, (done, total)),
                    orders.len() == z,
                    forall|k: int|
                        0 <= k < z ==> (#[trigger] floors[k]).wf() && floors[k].spec_size() == fsize
                            && floor_made::<R, A, T>(fsize, callback, floors[k]),
                    forall|k: int|
                        0 <= k < z ==> is_shuffle(fsize, #[trigger] orders[k]) && (
                        callback matches Some(f) ==> acknowledged::<R, A, T>(
                            f,
                            orders[k],
                            reports(orders[k]).len() as int,
                        )),
                decreases d - z,
            {
                let res = Self::run(fsize, &mut callback);
                let ghost order = choose|order: Seq<Passage>| #[trigger]
                    is_shuffle(fsize, order) && run_result(fsize, order, callback, res);
                match res {
                    Ok(m) => {
                        floors.push(m);
                        proof {
                            orders = orders.push(order);
                        }
                    },
                    Err(e) => {
                        assert(stopped_on_floor(fsize, callback->0, orders, order, e));
                        return Err(e);
                    },
                }
                z += 1;
            }
            let mut links: Vec<(usize, usize)> = Vec::new();
            let mut i: i32 = 0;
            while i < d - 1
                invariant
                    w >= 1,
                    h >= 1,
                    0 <= i <= d - 1,
                    links.len() == i,
                    forall|k: int| 0 <= k < i ==> (#[trigger] links[k]).0 < w && links[k].1 < h,
                decreases d - 1 - i,
            {
                let x = random_below(&mut thread_rng(), w as usize);
                let y = random_below(&mut thread_rng(), h as usize);
                links.push((x, y));
                i += 1;
            }
            let ghost stacked = floors@;
            let ghost columns = links@;
            let maze = Self::compose_floors(floors, links);
            proof {
                lemma_composed_floors::<R, A, T>(size, stacked, columns, callback, maze);
                let open = maze.passages();
                assert forall|z: int| 0 <= z < size.2 implies #[trigger] floor_tree(size, open, z) by {
                    assert(floor_run::<R, A, T>(size, callback, open, z));
                }
                lemma_floored_spanning(size, open);
                maze.lemma_passages_inner();
                lemma_floored_count(size, open);
            }
            Ok(maze)
        } else {
            Self::run(size, &mut callback)
        }
    }

    /// Stacks the single-floor grids `floors` into one grid and opens, for
    /// each floor but the last, the passage that leads up from the column
    /// `links[z]` of floor `z`.
    pub fn compose_floors(floors: Vec<Maze>, links: Vec<(usize, usize)>) -> (m: Maze)
        requires
            1 <= floors.len() <= i32::MAX,
            forall|z: int|
                0 <= z < floors.len() ==> (#[trigger] floors[z]).wf() && floors[z].spec_size()
                    == floor_size(floors[0].spec_size()),
            links.len() == floors.len() - 1,
            forall|z: int|
                0 <= z < links.len() ==> (#[trigger] links[z]).0 < floors[0].spec_size().0
                    && links[z].1 < floors[0].spec_size().1,
        ensures
            m.wf(),
            m.spec_size() == Dims3D(
                floors[0].spec_size().0,
                floors[0].spec_size().1,
                floors.len() as i32,
            ),
            forall|c: Dims3D, f: CellWall|
                m.in_bounds(c) ==> #[trigger] m.wall(c, f) == composed_wall(floors@, links@, c, f),
    {
        let mut maze = Maze::stack(&floors);
        let ghost size = maze.spec_size();
        proof {
            // A floor of its own has no neighbour above or below: the walls
            // between the floors stand as long as no link is opened.
            assert forall|c: Dims3D, f: CellWall| maze.in_bounds(c) implies #[trigger] maze.wall(
                c,
                f,
            ) == composed_wall(floors@, links@.take(0), c, f) by {
                let fl = floors[c.2 as int];
                assert(!fl.in_bounds(grounded(c).step(CellWall::Up)));
                assert(!fl.in_bounds(grounded(c).step(CellWall::Down)));
            }
        }
        let mut floor: usize = 0;
        while floor < links.len()
            invariant
                floor <= links.len(),
                links.len() == floors.len() - 1,
                floors.len() <= i32::MAX,
                size == Dims3D(
                    floors[0].spec_size().0,
                    floors[0].spec_size().1,
                    floors.len() as i32,
                ),
                size.is_size(),
                forall|z: int|
                    0 <= z < links.len() ==> (#[trigger] links[z]).0 < size.0 && links[z].1
                        < size.1,
                maze.wf(),
                maze.spec_size() == size,
                forall|c: Dims3D, f: CellWall|
                    maze.in_bounds(c) ==> #[trigger] maze.wall(c, f) == composed_wall(
                        floors@,
                        links@.take(floor as int),
                        c,
                        f,
                    ),
            decreases links.len() - floor,
        {
            let (x, y) = links[floor];
            let pos = Dims3D(x as i32, y as i32, floor as i32);
            maze.open_passage(pos, CellWall::Up);
            proof {
                // Only the two walls of the link have gone.
                assert(forall|c: Dims3D, f: CellWall|
                    maze.in_bounds(c) ==> #[trigger] maze.wall(c, f) == composed_wall(
                        floors@,
                        links@.take(floor + 1),
                        c,
                        f,
                    ));
            }
            floor += 1;
        }
        maze
    }

    /// Generates one grid of size `size` as a single spanning tree: builds
    /// the candidate wall list, shuffles it, and carves the grid by consuming
    /// the shuffled list.
    ///
    /// Fails with `InvalidSize` exactly if some component of `size` is zero,
    /// and otherwise only with an error of the callback.
    pub fn generate_individual<R, A, T: FnMut(usize, usize) -> Result<(), ReportCallbackError<R, A>>>(
        size: Dims3D,
        report_progress: Option<T>,
    ) -> (res: Result<Maze, GenerationError<R, A>>)
        requires
            size.is_request(),
            report_progress matches Some(f) ==> forall|done: usize, total: usize|
                1 <= done <= total == wall_count(size) ==> call_requires(f, (done, total)),
        ensures
            size.has_zero() ==> res == Err::<Maze, GenerationError<R, A>>(
                GenerationError::InvalidSize(size),
            ),
            !size.has_zero() ==> exists|order: Seq<Passage>| #[trigger]
                is_shuffle(size, order) && run_result(size, order, report_progress, res),
            !size.has_zero() ==> (res matches Ok(m) ==> m.is_connected() && m.passages().len()
                == size.volume() - 1),
    {
        let mut callback = report_progress;
        Self::run(size, &mut callback)
    }

    /// Generates one grid as `generate_individual` does, with a callback
    /// that the caller keeps.
    pub fn run<R, A, T: FnMut(usize, usize) -> Result<(), ReportCallbackError<R, A>>>(
        size: Dims3D,
        report_progress: &mut Option<T>,
    ) -> (res: Result<Maze, GenerationError<R, A>>)
        requires
            size.is_request(),
            *old(report_progress) matches Some(f) ==> forall|done: usize, total: usize|
                1 <= done <= total == wall_count(size) ==> call_requires(f, (done, total)),
        ensures
            *final(report_progress) == *old(report_progress),
            size.has_zero() ==> res == Err::<Maze, GenerationError<R, A>>(
                GenerationError::InvalidSize(size),
            ),
            !size.has_zero() ==> exists|order: Seq<Passage>| #[trigger]
                is_shuffle(size, order) && run_result(size, order, *old(report_progress), res),
            !size.has_zero() ==> (res matches Ok(m) ==> m.is_connected() && m.passages().len()
                == size.volume() - 1),
    {
        if size.0 == 0 || size.1 == 0 || size.2 == 0 {
            return Err(GenerationError::InvalidSize(size));
        }
        let mut walls = enumerate_walls(size);
        shuffle(&mut walls, &mut thread_rng());
        proof {
            lemma_shuffle_covers(size, walls@);
        }
        let ghost order = walls@;
        let res = Self::carve(size, walls, report_progress);
        assert(is_shuffle(size, order) && run_result(size, order, *old(report_progress), res));
        res
    }

    /// Carves a grid of size `size` by consuming the candidate list `walls`
    /// from its back: a candidate whose two cells are already joined is
    /// dropped, any other is opened.  After each opening the callback, if
    /// there is one, is told how many candidates were consumed so far, and
    /// how many there were in all; its first error ends the run.
    pub fn carve<R, A, T: FnMut(usize, usize) -> Result<(), ReportCallbackError<R, A>>>(
        size: Dims3D,
        walls: Vec<(Dims3D, CellWall)>,
        report_progress: &mut Option<T>,
    ) -> (res: Result<Maze, GenerationError<R, A>>)
        requires
            size.is_size(),
            size.is_countable(),
            forall|i: int| 0 <= i < walls.len() ==> valid_candidate(size, #[trigger] walls[i]),
            *old(report_progress) matches Some(f) ==> forall|done: usize|
                1 <= done <= walls.len() ==> call_requires(f, (done, walls.len())),
        ensures
            *final(report_progress) == *old(report_progress),
            run_result(size, walls@, *old(report_progress), res),
            covers_grid(size, walls@) ==> (res matches Ok(m) ==> m.is_connected()
                && m.passages().len() == size.volume() - 1),
    {
        let ghost order = walls@;
        let total = walls.len();
        let mut rest = walls;
        let ghost callback = *report_progress;
        let mut maze = match Maze::new::<R, A>(size) {
            Ok(m) => m,
            Err(e) => {
                return Err(e);
            },
        };
        proof {
            lemma_countable(size);
        }
        let cells = (size.0 as usize) * (size.1 as usize) * (size.2 as usize);
        let mut partition = Partition::singletons(cells);
        proof {
            lemma_tracks_start(size, partition@);
            assert(rest@ =~= order.take(rest.len() as int));
        }
        while rest.len() > 0
            invariant
                size.is_size(),
                size.is_countable(),
                order == walls@,
                total == order.len(),
                rest.len() <= order.len(),
                rest@ == order.take(rest.len() as int),
                forall|i: int| 0 <= i < order.len() ==> valid_candidate(size, #[trigger] order[i]),
                maze.wf(),
                maze.spec_size() == size,
                maze.passages() == carved(order.skip(rest.len() as int)),
                tracks(size, partition@, maze.passages()),
                *report_progress == callback,
                callback == *old(report_progress),
                callback matches Some(f) ==> forall|done: usize|
                    1 <= done <= total ==> call_requires(f, (done, total)),
                callback matches Some(f) ==> forall|i: int|
                    0 <= i < reports(order.skip(rest.len() as int)).len() ==> call_ensures(
                        f,
                        (#[trigger] reports(order.skip(rest.len() as int))[i] as usize, total),
                        Ok::<(), ReportCallbackError<R, A>>(()),
                    ),
            decreases rest.len(),
        {
            let ghost before = order.skip(rest.len() as int);
            let (cell, wall) = rest.pop().unwrap();
            let ghost now = order.skip(rest.len() as int);
            proof {
                // `now` is `before` with the candidate just taken put in front.
                assert(now[0] == (cell, wall));
                assert(now.skip(1) =~= before);
                lemma_number_bound(size, cell);
                lemma_number_bound(size, far_end((cell, wall)));
            }
            let off = wall.to_coord();
            let other = Dims3D(cell.0 + off.0, cell.1 + off.1, cell.2 + off.2);
            let here = cell_number(size, cell);
            let there = cell_number(size, other);
            let ghost sets = partition@;
            if !partition.join(here, there) {
                proof {
                    // The two cells are joined already: nothing opens, and
                    // nothing is reported.
                    let k = choose|k: int| #[trigger]
                        holds(sets, k, here as int) && holds(sets, k, there as int);
                    lemma_tracks_reject(size, sets, maze.passages(), (cell, wall), k);
                    assert(carved(now) == carved(before));
                    assert(reports(now) == reports(before));
                }
            } else {
                proof {
                    let (k0, k1) = choose|k0: int, k1: int|
                        holds(sets, k0, here as int) && holds(sets, k1, there as int)
                            && #[trigger] merged(sets, k0, k1) == partition@;
                    lemma_tracks_accept(size, sets, maze.passages(), (cell, wall), k0, k1);
                    assert(carved(now) == carved(before).insert((cell, wall)));
                    assert(reports(now) == reports(before).push(now.len() as int));
                }
                maze.open_passage(cell, wall);
                let done = total - rest.len();
                let answer = match report_progress.as_mut() {
                    Some(f) => f(done, total),
                    None => Ok(()),
                };
                match answer {
                    Ok(()) => {
                        proof {
                            assert(answer->Ok_0 == ());
                            if let Some(f) = callback {
                                assert forall|i: int| 0 <= i < reports(now).len() implies call_ensures(
                                    f,
                                    (#[trigger] reports(now)[i] as usize, total),
                                    Ok::<(), ReportCallbackError<R, A>>(()),
                                ) by {
                                    if i < reports(before).len() {
                                        assert(reports(now)[i] == reports(before)[i]);
                                    }
                                }
                            }
                        }
                    },
                    Err(e) => {
                        let err = GenerationError::from(e);
                        proof {
                            // The reports made so far are the first reports
                            // of the whole run, and the last of them was
                            // answered with the error.
                            let f = callback->0;
                            let i = reports(before).len() as int;
                            lemma_carved_grows(order, rest.len() as int);
                            assert(reports(order)[i] == reports(now)[i]);
                            assert(forall|j: int|
                                0 <= j < i ==> #[trigger] reports(order)[j] == reports(before)[j]);
                            assert(acknowledged(f, order, i));
                            assert(call_ensures(
                                f,
                                (reports(order)[i] as usize, order.len() as usize),
                                Err::<(), ReportCallbackError<R, A>>(e),
                            ));
                        }
                        return Err(err);
                    },
                }
            }
        }
        proof {
            if covers_grid(size, order) {
                lemma_carved_connects(size, order);
                lemma_tracks_spanning(size, partition@, maze.passages());
            }
        }
        Ok(maze)
    }
}

} // verus!
