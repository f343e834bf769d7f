//! The grid model: a three-dimensional array of cells with cached dimensions.

use vstd::prelude::*;
use crate::cell::{lemma_reverse_involution, Cell, CellWall};
use crate::dims::Dims3D;
use crate::errors::GenerationError;
use crate::graph::{joined, Passage};
use crate::walls::valid_candidate;

verus! {

/// A grid of cells, indexed `[z][y][x]`.  Only wall flags ever change after
/// the grid was built.
#[derive(Debug)]
pub struct Maze {
    cells: Vec<Vec<Vec<Cell>>>,
    width: usize,
    height: usize,
    depth: usize,
}

impl Maze {
    /// The dimensions of the grid.
    pub closed spec fn spec_size(&self) -> Dims3D {
        Dims3D(self.width as i32, self.height as i32, self.depth as i32)
    }

    /// Whether `c` is the coordinate of a cell of the grid.
    pub open spec fn in_bounds(&self, c: Dims3D) -> bool {
        c.within(self.spec_size())
    }

    /// Whether the wall on face `w` of the cell at `c` is present.
    pub closed spec fn wall(&self, c: Dims3D, w: CellWall) -> bool {
        self.cells[c.2 as int][c.1 as int][c.0 as int].wall(w)
    }

    /// The array has the shape the cached dimensions say, and every cell
    /// stores the position it stands at.
    pub closed spec fn shaped(&self) -> bool {
        &&& 1 <= self.width <= i32::MAX
        &&& 1 <= self.height <= i32::MAX
        &&& 1 <= self.depth <= i32::MAX
        &&& self.cells.len() == self.depth
        &&& forall|z: int| 0 <= z < self.depth ==> (#[trigger] self.cells[z]).len() == self.height
        &&& forall|z: int, y: int|
            0 <= z < self.depth && 0 <= y < self.height ==> (#[trigger] self.cells[z][y]).len()
                == self.width
        &&& forall|z: int, y: int, x: int|
            0 <= z < self.depth && 0 <= y < self.height && 0 <= x < self.width ==> (
            #[trigger] self.cells[z][y][x]).coord() == Dims3D(x as i32, y as i32, z as i32)
    }

    /// Both cells on the two sides of every inner face `w` agree on whether
    /// the wall stands.
    pub open spec fn agrees(&self, w: CellWall) -> bool {
        forall|c: Dims3D|
            self.in_bounds(c) && self.in_bounds(c.step(w)) ==> #[trigger] self.wall(c, w)
                == self.wall(c.step(w), w.reverse())
    }

    /// Well-formedness: the grid is shaped as its dimensions say, every wall
    /// on the outer boundary stands, and the two sides of each inner face agree.
    pub open spec fn wf(&self) -> bool {
        &&& self.shaped()
        &&& self.spec_size().is_size()
        &&& forall|c: Dims3D, w: CellWall|
            self.in_bounds(c) && !self.in_bounds(c.step(w)) ==> #[trigger] self.wall(c, w)
        &&& self.agrees(CellWall::Right)
        &&& self.agrees(CellWall::Bottom)
        &&& self.agrees(CellWall::Up)
    }

    /// The open passages of the grid, each named by its forward face.
    pub open spec fn passages(&self) -> Set<Passage> {
        Set::new(|p: Passage| self.in_bounds(p.0) && p.1.is_forward() && !self.wall(p.0, p.1))
    }

    /// Whether a walk through open passages leads from every cell to every other.
    pub open spec fn is_connected(&self) -> bool {
        forall|a: Dims3D, b: Dims3D|
            self.in_bounds(a) && self.in_bounds(b) ==> #[trigger] joined(self.passages(), a, b)
    }

    /// In a well-formed grid the open passages tell of every wall of every
    /// cell whether it stands: a wall stands unless the passage through its
    /// face is open.
    pub proof fn lemma_walls_by_passages(&self, c: Dims3D, w: CellWall)
        requires
            self.wf(),
            self.in_bounds(c),
        ensures
            self.wall(c, w) == !(if w.is_forward() {
                self.passages().contains((c, w))
            } else {
                self.passages().contains((c.step(w), w.reverse()))
            }),
    {
        lemma_reverse_involution(w);
    }

    /// In a well-formed grid every open passage runs through an inner face.
    pub proof fn lemma_passages_inner(&self)
        requires
            self.wf(),
        ensures
            forall|p: Passage|
                self.passages().contains(p) ==> #[trigger] valid_candidate(self.spec_size(), p),
    {
    }

    /// A grid of the given size with every wall standing.
    ///
    /// Fails with `InvalidSize` exactly if some component of `size` is zero.
    pub fn new<R, A>(size: Dims3D) -> (res: Result<Maze, GenerationError<R, A>>)
        requires
            size.has_zero() || size.is_size(),
        ensures
            match res {
                Ok(m) => {
                    &&& !size.has_zero()
                    &&& m.wf()
                    &&& m.spec_size() == size
                    &&& forall|c: Dims3D, w: CellWall| m.in_bounds(c) ==> #[trigger] m.wall(c, w)
                    &&& m.passages() == Set::<Passage>::empty()
                },
                Err(e) => size.has_zero() && e == GenerationError::<R, A>::InvalidSize(size),
            },
    {
        if size.0 == 0 || size.1 == 0 || size.2 == 0 {
            return Err(GenerationError::InvalidSize(size));
        }
        let Dims3D(w, h, d) = size;
        let mut cells: Vec<Vec<Vec<Cell>>> = Vec::new();
        let mut z: i32 = 0;
        while z < d
            invariant
                0 <= z <= d,
                w >= 1,
                h >= 1,
                cells.len() == z,
                forall|k: int| 0 <= k < z ==> (#[trigger] cells[k]).len() == h,
                forall|k: int, j: int|
                    0 <= k < z && 0 <= j < h ==> (#[trigger] cells[k][j]).len() == w,
                forall|k: int, j: int, i: int|
                    0 <= k < z && 0 <= j < h && 0 <= i < w ==> (#[trigger] cells[k][j][i]).coord()
                        == Dims3D(i as i32, j as i32, k as i32),
                forall|k: int, j: int, i: int, f: CellWall|
                    0 <= k < z && 0 <= j < h && 0 <= i < w ==> #[trigger] cells[k][j][i].wall(f),
            decreases d - z,
        {
            let mut floor: Vec<Vec<Cell>> = Vec::new();
            let mut y: i32 = 0;
            while y < h
                invariant
                    0 <= y <= h,
                    0 <= z < d,
                    w >= 1,
                    floor.len() == y,
                    forall|j: int| 0 <= j < y ==> (#[trigger] floor[j]).len() == w,
                    forall|j: int, i: int|
                        0 <= j < y && 0 <= i < w ==> (#[trigger] floor[j][i]).coord() == Dims3D(
                            i as i32,
                            j as i32,
                            z,
                        ),
                    forall|j: int, i: int, f: CellWall|
                        0 <= j < y && 0 <= i < w ==> #[trigger] floor[j][i].wall(f),
                decreases h - y,
            {
                let mut row: Vec<Cell> = Vec::new();
                let mut x: i32 = 0;
                while x < w
                    invariant
                        0 <= x <= w,
                        row.len() == x,
                        forall|i: int|
                            0 <= i < x ==> (#[trigger] row[i]).coord() == Dims3D(i as i32, y, z),
                        forall|i: int, f: CellWall| 0 <= i < x ==> #[trigger] row[i].wall(f),
                    decreases w - x,
                {
                    row.push(Cell::new(Dims3D(x, y, z)));
                    x += 1;
                }
                floor.push(row);
                y += 1;
            }
            cells.push(floor);
            z += 1;
        }
        Ok(Maze { cells, width: w as usize, height: h as usize, depth: d as usize })
    }

    /// The dimensions of the grid.
    pub fn size(&self) -> (size: Dims3D)
        requires
            self.wf(),
        ensures
            size == self.spec_size(),
    {
        Dims3D(self.width as i32, self.height as i32, self.depth as i32)
    }

    /// Number of cells in a row.
    pub fn width(&self) -> (w: usize)
        requires
            self.wf(),
        ensures
            w == self.spec_size().0,
    {
        self.width
    }

    /// Number of rows on a floor.
    pub fn height(&self) -> (h: usize)
        requires
            self.wf(),
        ensures
            h == self.spec_size().1,
    {
        self.height
    }

    /// Number of floors.
    pub fn depth(&self) -> (d: usize)
        requires
            self.wf(),
        ensures
            d == self.spec_size().2,
    {
        self.depth
    }

    /// Whether `pos` is the coordinate of a cell of the grid.
    pub fn is_in_bounds(&self, pos: Dims3D) -> (inside: bool)
        requires
            self.wf(),
        ensures
            inside == self.in_bounds(pos),
    {
        0 <= pos.0 && (pos.0 as usize) < self.width && 0 <= pos.1 && (pos.1 as usize) < self.height
            && 0 <= pos.2 && (pos.2 as usize) < self.depth
    }

    /// The cell at `pos`, if `pos` lies in the grid.
    pub fn get_cell(&self, pos: Dims3D) -> (cell: Option<&Cell>)
        requires
            self.wf(),
        ensures
            cell is Some <==> self.in_bounds(pos),
            cell matches Some(c) ==> c.coord() == pos && forall|w: CellWall|
                c.wall(w) == self.wall(pos, w),
    {
        if self.is_in_bounds(pos) {
            let c = &self.cells[pos.2 as usize][pos.1 as usize][pos.0 as usize];
            Some(c)
        } else {
            None
        }
    }

    /// Stacks single-floor grids of one width and height into one grid.
    /// Floor `z` of the result has the walls of `floors[z]`; every wall
    /// between two floors stands.
    pub(crate) fn stack(floors: &Vec<Maze>) -> (m: Maze)
        requires
            1 <= floors.len() <= i32::MAX,
            forall|z: int|
                0 <= z < floors.len() ==> (#[trigger] floors[z]).wf() && floors[z].spec_size()
                    == Dims3D(floors[0].spec_size().0, floors[0].spec_size().1, 1),
        ensures
            m.wf(),
            m.spec_size() == Dims3D(
                floors[0].spec_size().0,
                floors[0].spec_size().1,
                floors.len() as i32,
            ),
            forall|c: Dims3D, f: CellWall|
                m.in_bounds(c) ==> #[trigger] m.wall(c, f) == floors[c.2 as int].wall(
                    Dims3D(c.0, c.1, 0),
                    f,
                ),
    {
        let w = floors[0].width;
        let h = floors[0].height;
        let d = floors.len();
        let mut cells: Vec<Vec<Vec<Cell>>> = Vec::new();
        let mut z: usize = 0;
        while z < d
            invariant
                0 <= z <= d,
                d == floors.len(),
                1 <= d <= i32::MAX,
                1 <= w <= i32::MAX,
                1 <= h <= i32::MAX,
                forall|k: int|
                    0 <= k < d ==> (#[trigger] floors[k]).shaped() && floors[k].width == w
                        && floors[k].height == h && floors[k].depth == 1,
                cells.len() == z,
                forall|k: int| 0 <= k < z ==> (#[trigger] cells[k]).len() == h,
                forall|k: int, j: int|
                    0 <= k < z && 0 <= j < h ==> (#[trigger] cells[k][j]).len() == w,
                forall|k: int, j: int, i: int|
                    0 <= k < z && 0 <= j < h && 0 <= i < w ==> (#[trigger] cells[k][j][i]).coord()
                        == Dims3D(i as i32, j as i32, k as i32),
                forall|k: int, j: int, i: int, f: CellWall|
                    0 <= k < z && 0 <= j < h && 0 <= i < w ==> #[trigger] cells[k][j][i].wall(f)
                        == floors[k].cells[0][j][i].wall(f),
            decreases d - z,
        {
            let mut floor: Vec<Vec<Cell>> = Vec::new();
            let mut y: usize = 0;
            while y < h
                invariant
                    0 <= y <= h,
                    0 <= z < d,
                    d == floors.len(),
                    1 <= d <= i32::MAX,
                    1 <= w <= i32::MAX,
                    1 <= h <= i32::MAX,
                    floors[z as int].shaped(),
                    floors[z as int].width == w,
                    floors[z as int].height == h,
                    floors[z as int].depth == 1,
                    floor.len() == y,
                    forall|j: int| 0 <= j < y ==> (#[trigger] floor[j]).len() == w,
                    forall|j: int, i: int|
                        0 <= j < y && 0 <= i < w ==> (#[trigger] floor[j][i]).coord() == Dims3D(
                            i as i32,
                            j as i32,
                            z as i32,
                        ),
                    forall|j: int, i: int, f: CellWall|
                        0 <= j < y && 0 <= i < w ==> #[trigger] floor[j][i].wall(f)
                            == floors[z as int].cells[0][j][i].wall(f),
                decreases h - y,
            {
                let mut row: Vec<Cell> = Vec::new();
                let mut x: usize = 0;
                while x < w
                    invariant
                        0 <= x <= w,
                        0 <= y < h,
                        0 <= z < d,
                        d == floors.len(),
                        1 <= d <= i32::MAX,
                        1 <= w <= i32::MAX,
                        1 <= h <= i32::MAX,
                        floors[z as int].shaped(),
                        floors[z as int].width == w,
                        floors[z as int].height == h,
                        floors[z as int].depth == 1,
                        row.len() == x,
                        forall|i: int|
                            0 <= i < x ==> (#[trigger] row[i]).coord() == Dims3D(
                                i as i32,
                                y as i32,
                                z as i32,
                            ),
                        forall|i: int, f: CellWall|
                            0 <= i < x ==> #[trigger] row[i].wall(f)
                                == floors[z as int].cells[0][y as int][i].wall(f),
                    decreases w - x,
                {
                    let ground = &floors[z];
                    let cell = ground.cells[0][y][x];
                    row.push(cell.moved_to(Dims3D(x as i32, y as i32, z as i32)));
                    x += 1;
                }
                floor.push(row);
                y += 1;
            }
            cells.push(floor);
            z += 1;
        }
        let m = Maze { cells, width: w, height: h, depth: d };
        proof {
            // Cell by cell the stack has the walls of its floors, so the
            // boundary walls and the agreement of the two sides of a face
            // carry over from the floors; between two floors every wall is
            // a boundary wall of its floor.
            assert(forall|c: Dims3D, f: CellWall|
                m.in_bounds(c) ==> #[trigger] m.wall(c, f) == floors[c.2 as int].wall(
                    Dims3D(c.0, c.1, 0),
                    f,
                ));
            assert(forall|c: Dims3D, f: CellWall|
                m.in_bounds(c) && !m.in_bounds(c.step(f)) ==> #[trigger] m.wall(c, f));
            assert(m.agrees(CellWall::Right));
            assert(m.agrees(CellWall::Bottom));
            assert(m.agrees(CellWall::Up));
        }
        m
    }

    /// Opens the passage through face `wall` of the cell at `pos`: takes the
    /// wall away on both sides of the face.
    pub(crate) fn open_passage(&mut self, pos: Dims3D, wall: CellWall)
        requires
            old(self).wf(),
            old(self).in_bounds(pos),
            old(self).in_bounds(pos.step(wall)),
        ensures
            final(self).wf(),
            final(self).spec_size() == old(self).spec_size(),
            forall|c: Dims3D, w: CellWall|
                final(self).in_bounds(c) ==> #[trigger] final(self).wall(c, w) == (old(self).wall(
                    c,
                    w,
                ) && !(c == pos && w == wall) && !(c == pos.step(wall) && w == wall.reverse())),
            wall.is_forward() ==> final(self).passages() == old(self).passages().insert(
                (pos, wall),
            ),
    {
        let off = wall.to_coord();
        let other = Dims3D(pos.0 + off.0, pos.1 + off.1, pos.2 + off.2);
        let ghost before = *self;
        self.cells[pos.2 as usize][pos.1 as usize][pos.0 as usize].remove_wall(wall);
        self.cells[other.2 as usize][other.1 as usize][other.0 as usize].remove_wall(
            wall.reverse_wall(),
        );
        proof {
            lemma_reverse_involution(wall);
            assert(forall|c: Dims3D, w: CellWall|
                self.in_bounds(c) ==> #[trigger] self.wall(c, w) == (before.wall(c, w) && !(c == pos
                    && w == wall) && !(c == other && w == wall.reverse())));
        }
    }
}

} // verus!
