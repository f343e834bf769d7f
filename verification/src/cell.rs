//! Cells of the grid and the walls on their six faces.

use vstd::prelude::*;
use crate::dims::Dims3D;

verus! {

/// One face of a cell.
#[derive(Clone, Copy, Debug, PartialEq, Eq, Hash, Structural)]
pub enum CellWall {
    Left,
    Right,
    Top,
    Bottom,
    Up,
    Down,
}

impl CellWall {
    /// The unit step that leads through this face to the neighbouring cell.
    pub open spec fn offset(self) -> (int, int, int) {
        match self {
            CellWall::Left => (-1, 0, 0),
            CellWall::Right => (1, 0, 0),
            CellWall::Top => (0, -1, 0),
            CellWall::Bottom => (0, 1, 0),
            CellWall::Up => (0, 0, 1),
            CellWall::Down => (0, 0, -1),
        }
    }

    /// The face of the neighbouring cell that coincides with this one.
    pub open spec fn reverse(self) -> CellWall {
        match self {
            CellWall::Left => CellWall::Right,
            CellWall::Right => CellWall::Left,
            CellWall::Top => CellWall::Bottom,
            CellWall::Bottom => CellWall::Top,
            CellWall::Up => CellWall::Down,
            CellWall::Down => CellWall::Up,
        }
    }

    /// The three faces that point towards growing coordinates.  Every inner
    /// face of a grid is the forward face of exactly one cell.
    pub open spec fn is_forward(self) -> bool {
        self == CellWall::Right || self == CellWall::Bottom || self == CellWall::Up
    }

    /// The unit offset to the neighbour across this face.
    pub fn to_coord(&self) -> (off: Dims3D)
        ensures
            (off.0 as int, off.1 as int, off.2 as int) == self.offset(),
    {
        match self {
            CellWall::Left => Dims3D(-1, 0, 0),
            CellWall::Right => Dims3D(1, 0, 0),
            CellWall::Top => Dims3D(0, -1, 0),
            CellWall::Bottom => Dims3D(0, 1, 0),
            CellWall::Up => Dims3D(0, 0, 1),
            CellWall::Down => Dims3D(0, 0, -1),
        }
    }

    /// The same face seen from the neighbouring cell.
    pub fn reverse_wall(&self) -> (rev: CellWall)
        ensures
            rev == self.reverse(),
    {
        match self {
            CellWall::Left => CellWall::Right,
            CellWall::Right => CellWall::Left,
            CellWall::Top => CellWall::Bottom,
            CellWall::Bottom => CellWall::Top,
            CellWall::Up => CellWall::Down,
            CellWall::Down => CellWall::Up,
        }
    }
}

/// Reversing a face twice gives the face back, and the reverse face leads the
/// opposite way.
pub proof fn lemma_reverse_involution(w: CellWall)
    ensures
        w.reverse().reverse() == w,
        w.reverse() != w,
        w.reverse().offset().0 == -w.offset().0,
        w.reverse().offset().1 == -w.offset().1,
        w.reverse().offset().2 == -w.offset().2,
        w.is_forward() != w.reverse().is_forward(),
{
}

impl Dims3D {
    /// The coordinate reached from `self` by one step through face `w`.
    pub open spec fn step(self, w: CellWall) -> Dims3D {
        Dims3D(
            (self.0 + w.offset().0) as i32,
            (self.1 + w.offset().1) as i32,
            (self.2 + w.offset().2) as i32,
        )
    }
}

/// A grid cell: its position and, for each face, whether a wall stands there.
#[derive(Clone, Copy, Debug)]
pub struct Cell {
    left: bool,
    top: bool,
    right: bool,
    bottom: bool,
    up: bool,
    down: bool,
    coord: Dims3D,
}

impl Cell {
    /// Whether the wall on face `w` is present.
    pub closed spec fn wall(&self, w: CellWall) -> bool {
        match w {
            CellWall::Left => self.left,
            CellWall::Right => self.right,
            CellWall::Top => self.top,
            CellWall::Bottom => self.bottom,
            CellWall::Up => self.up,
            CellWall::Down => self.down,
        }
    }

    /// The position stored in the cell.
    pub closed spec fn coord(&self) -> Dims3D {
        self.coord
    }

    /// A cell at `coord` with all six walls standing.
    pub fn new(coord: Dims3D) -> (cell: Cell)
        ensures
            cell.coord() == coord,
            forall|w: CellWall| cell.wall(w),
    {
        Cell { left: true, top: true, right: true, bottom: true, up: true, down: true, coord }
    }

    /// The same cell, standing at `coord`.
    pub(crate) fn moved_to(self, coord: Dims3D) -> (cell: Cell)
        ensures
            cell.coord() == coord,
            forall|w: CellWall| cell.wall(w) == self.wall(w),
    {
        Cell {
            left: self.left,
            top: self.top,
            right: self.right,
            bottom: self.bottom,
            up: self.up,
            down: self.down,
            coord,
        }
    }

    /// Takes the wall on face `wall` away.  Walls are never put back.
    pub fn remove_wall(&mut self, wall: CellWall)
        ensures
            final(self).coord() == old(self).coord(),
            forall|w: CellWall| final(self).wall(w) == (old(self).wall(w) && w != wall),
    {
        match wall {
            CellWall::Left => self.left = false,
            CellWall::Right => self.right = false,
            CellWall::Top => self.top = false,
            CellWall::Bottom => self.bottom = false,
            CellWall::Up => self.up = false,
            CellWall::Down => self.down = false,
        }
    }

    /// Whether the wall on face `wall` is present.
    pub fn get_wall(&self, wall: CellWall) -> (present: bool)
        ensures
            present == self.wall(wall),
    {
        match wall {
            CellWall::Left => self.left,
            CellWall::Right => self.right,
            CellWall::Top => self.top,
            CellWall::Bottom => self.bottom,
            CellWall::Up => self.up,
            CellWall::Down => self.down,
        }
    }

    /// The position of the cell in its grid.
    pub fn get_coord(&self) -> (coord: Dims3D)
        ensures
            coord == self.coord(),
    {
        self.coord
    }
}

} // verus!
