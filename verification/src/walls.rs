//! Wall enumeration: the candidate passages of a grid, each inner face once.

use vstd::prelude::*;
use crate::cell::CellWall;
use crate::dims::Dims3D;
use crate::graph::Passage;

verus! {

/// Whether `p` names an inner face of a grid of size `size` by its forward
/// side: the cell and its neighbour across the face both lie in the grid.
pub open spec fn valid_candidate(size: Dims3D, p: Passage) -> bool {
    &&& p.0.within(size)
    &&& p.1.is_forward()
    &&& p.0.step(p.1).within(size)
}

/// The candidates that the cell at `c` contributes: its right face unless it
/// stands in the last column, its bottom face unless in the last row, its
/// upper face unless on the last floor.
pub open spec fn cell_walls(size: Dims3D, c: Dims3D) -> Seq<Passage> {
    let right = if c.0 != size.0 - 1 {
        seq![(c, CellWall::Right)]
    } else {
        Seq::<Passage>::empty()
    };
    let bottom = if c.1 != size.1 - 1 {
        seq![(c, CellWall::Bottom)]
    } else {
        Seq::<Passage>::empty()
    };
    let up = if c.2 != size.2 - 1 {
        seq![(c, CellWall::Up)]
    } else {
        Seq::<Passage>::empty()
    };
    right + bottom + up
}

/// The candidates of the first `nx` cells of row `y` on floor `z`.
pub open spec fn row_walls(size: Dims3D, z: int, y: int, nx: int) -> Seq<Passage>
    decreases nx,
{
    if nx <= 0 {
        Seq::<Passage>::empty()
    } else {
        row_walls(size, z, y, nx - 1) + cell_walls(
            size,
            Dims3D((nx - 1) as i32, y as i32, z as i32),
        )
    }
}

/// The candidates of the first `ny` rows of floor `z`.
pub open spec fn floor_walls(size: Dims3D, z: int, ny: int) -> Seq<Passage>
    decreases ny,
{
    if ny <= 0 {
        Seq::<Passage>::empty()
    } else {
        floor_walls(size, z, ny - 1) + row_walls(size, z, ny - 1, size.0 as int)
    }
}

/// The candidates of the first `nz` floors.
pub open spec fn grid_walls(size: Dims3D, nz: int) -> Seq<Passage>
    decreases nz,
{
    if nz <= 0 {
        Seq::<Passage>::empty()
    } else {
        grid_walls(size, nz - 1) + floor_walls(size, nz - 1, size.1 as int)
    }
}

/// The candidate wall list of a grid of size `size`: cells are visited floor
/// by floor, row by row, left to right.
pub open spec fn candidate_walls(size: Dims3D) -> Seq<Passage> {
    grid_walls(size, size.2 as int)
}

/// Number of inner faces of a grid of `w` columns, `h` rows and `d` floors:
/// those within the floors, and those between a floor and the next.
pub open spec fn face_count(w: int, h: int, d: int) -> int {
    (h * (w - 1) + w * (h - 1)) * d + w * h * (d - 1)
}

/// Number of inner faces of a grid of size `size`.
pub open spec fn wall_count(size: Dims3D) -> int {
    face_count(size.0 as int, size.1 as int, size.2 as int)
}

/// Builds the candidate wall list of a grid of size `size`.
pub fn enumerate_walls(size: Dims3D) -> (walls: Vec<(Dims3D, CellWall)>)
    requires
        size.is_size(),
    ensures
        walls@ == candidate_walls(size),
{
    let Dims3D(w, h, d) = size;
    let mut walls: Vec<(Dims3D, CellWall)> = Vec::new();
    let mut z: i32 = 0;
    while z < d
        invariant
            size == Dims3D(w, h, d),
            size.is_size(),
            0 <= z <= d,
            walls@ == grid_walls(size, z as int),
        decreases d - z,
    {
        let mut y: i32 = 0;
        while y < h
            invariant
                size == Dims3D(w, h, d),
                size.is_size(),
                0 <= z < d,
                0 <= y <= h,
                walls@ == grid_walls(size, z as int) + floor_walls(size, z as int, y as int),
            decreases h - y,
        {
            let mut x: i32 = 0;
            let ghost done = walls@;
            while x < w
                invariant
                    size == Dims3D(w, h, d),
                    size.is_size(),
                    0 <= z < d,
                    0 <= y < h,
                    0 <= x <= w,
                    walls@ == done + row_walls(size, z as int, y as int, x as int),
                decreases w - x,
            {
                let c = Dims3D(x, y, z);
                if x != w - 1 {
                    walls.push((c, CellWall::Right));
                }
                if y != h - 1 {
                    walls.push((c, CellWall::Bottom));
                }
                if z != d - 1 {
                    walls.push((c, CellWall::Up));
                }
                x += 1;
            }
            y += 1;
        }
        z += 1;
    }
    walls
}

proof fn lemma_concat_contains<A>(s: Seq<A>, t: Seq<A>, p: A)
    ensures
        (s + t).contains(p) <==> s.contains(p) || t.contains(p),
{
    if s.contains(p) {
        let i = choose|i: int| 0 <= i < s.len() && s[i] == p;
        assert((s + t)[i] == p);
    }
    if t.contains(p) {
        let j = choose|j: int| 0 <= j < t.len() && t[j] == p;
        assert((s + t)[s.len() + j] == p);
    }
    if (s + t).contains(p) {
        let i = choose|i: int| 0 <= i < (s + t).len() && (s + t)[i] == p;
        if i < s.len() {
            assert(s[i] == p);
        } else {
            assert(t[i - s.len()] == p);
        }
    }
}

proof fn lemma_cell_walls(size: Dims3D, c: Dims3D, p: Passage)
    requires
        size.is_size(),
        c.within(size),
    ensures
        cell_walls(size, c).contains(p) <==> p.0 == c && valid_candidate(size, p),
        cell_walls(size, c).no_duplicates(),
        cell_walls(size, c).len() == (if c.0 != size.0 - 1 {
            1int
        } else {
            0int
        }) + (if c.1 != size.1 - 1 {
            1int
        } else {
            0int
        }) + (if c.2 != size.2 - 1 {
            1int
        } else {
            0int
        }),
{
    let right = if c.0 != size.0 - 1 {
        seq![(c, CellWall::Right)]
    } else {
        Seq::<Passage>::empty()
    };
    let bottom = if c.1 != size.1 - 1 {
        seq![(c, CellWall::Bottom)]
    } else {
        Seq::<Passage>::empty()
    };
    let up = if c.2 != size.2 - 1 {
        seq![(c, CellWall::Up)]
    } else {
        Seq::<Passage>::empty()
    };
    lemma_concat_contains(right + bottom, up, p);
    lemma_concat_contains(right, bottom, p);
    if p.0 == c && valid_candidate(size, p) {
        if p.1 == CellWall::Right {
            assert(right[0] == p);
        } else if p.1 == CellWall::Bottom {
            assert(bottom[0] == p);
        } else {
            assert(up[0] == p);
        }
    }
}

/// The candidates of the first `nx` cells of a row are the valid candidates
/// whose cell is one of these; none occurs twice.
proof fn lemma_row_walls(size: Dims3D, z: int, y: int, nx: int, p: Passage)
    requires
        size.is_size(),
        0 <= z < size.2,
        0 <= y < size.1,
        0 <= nx <= size.0,
    ensures
        row_walls(size, z, y, nx).contains(p) <==> valid_candidate(size, p) && p.0.2 == z && p.0.1
            == y && p.0.0 < nx,
        row_walls(size, z, y, nx).no_duplicates(),
        row_walls(size, z, y, nx).len() == (if nx < size.0 {
            nx
        } else {
            size.0 - 1
        }) + (if y != size.1 - 1 {
            nx
        } else {
            0
        }) + (if z != size.2 - 1 {
            nx
        } else {
            0
        }),
    decreases nx,
{
    if nx > 0 {
        let c = Dims3D((nx - 1) as i32, y as i32, z as i32);
        let before = row_walls(size, z, y, nx - 1);
        let here = cell_walls(size, c);
        lemma_row_walls(size, z, y, nx - 1, p);
        lemma_cell_walls(size, c, p);
        lemma_concat_contains(before, here, p);
        assert forall|i: int, j: int| 0 <= i < before.len() && 0 <= j < here.len() implies before[i]
            != here[j] by {
            lemma_row_walls(size, z, y, nx - 1, before[i]);
            lemma_cell_walls(size, c, here[j]);
        }
        vstd::seq_lib::lemma_no_dup_in_concat(before, here);
    }
}

/// The candidates of the first `ny` rows of a floor.
proof fn lemma_floor_walls(size: Dims3D, z: int, ny: int, p: Passage)
    requires
        size.is_size(),
        0 <= z < size.2,
        0 <= ny <= size.1,
    ensures
        floor_walls(size, z, ny).contains(p) <==> valid_candidate(size, p) && p.0.2 == z && p.0.1
            < ny,
        floor_walls(size, z, ny).no_duplicates(),
        floor_walls(size, z, ny).len() == ny * (size.0 - 1) + (if ny < size.1 {
            ny
        } else {
            size.1 - 1
        }) * size.0 + (if z != size.2 - 1 {
            ny * size.0
        } else {
            0
        }),
    decreases ny,
{
    if ny > 0 {
        let before = floor_walls(size, z, ny - 1);
        let here = row_walls(size, z, ny - 1, size.0 as int);
        lemma_floor_walls(size, z, ny - 1, p);
        lemma_row_walls(size, z, ny - 1, size.0 as int, p);
        lemma_concat_contains(before, here, p);
        assert forall|i: int, j: int| 0 <= i < before.len() && 0 <= j < here.len() implies before[i]
            != here[j] by {
            lemma_floor_walls(size, z, ny - 1, before[i]);
            lemma_row_walls(size, z, ny - 1, size.0 as int, here[j]);
        }
        vstd::seq_lib::lemma_no_dup_in_concat(before, here);
        let w = size.0 as int;
        assert(ny * (w - 1) == (ny - 1) * (w - 1) + (w - 1)) by (nonlinear_arith);
        assert(ny * w == (ny - 1) * w + w) by (nonlinear_arith);
    } else {
        assert(ny * (size.0 - 1) == 0 && ny * size.0 == 0) by (nonlinear_arith)
            requires
                ny == 0,
        ;
    }
}

/// The candidates of the first `nz` floors.
proof fn lemma_grid_walls(size: Dims3D, nz: int, p: Passage)
    requires
        size.is_size(),
        0 <= nz <= size.2,
    ensures
        grid_walls(size, nz).contains(p) <==> valid_candidate(size, p) && p.0.2 < nz,
        grid_walls(size, nz).no_duplicates(),
        grid_walls(size, nz).len() == nz * (size.1 * (size.0 - 1) + size.0 * (size.1 - 1)) + (
        if nz < size.2 {
            nz
        } else {
            size.2 - 1
        }) * (size.0 * size.1),
    decreases nz,
{
    if nz > 0 {
        let before = grid_walls(size, nz - 1);
        let here = floor_walls(size, nz - 1, size.1 as int);
        lemma_grid_walls(size, nz - 1, p);
        lemma_floor_walls(size, nz - 1, size.1 as int, p);
        lemma_concat_contains(before, here, p);
        assert forall|i: int, j: int| 0 <= i < before.len() && 0 <= j < here.len() implies before[i]
            != here[j] by {
            lemma_grid_walls(size, nz - 1, before[i]);
            lemma_floor_walls(size, nz - 1, size.1 as int, here[j]);
        }
        vstd::seq_lib::lemma_no_dup_in_concat(before, here);
        let w = size.0 as int;
        let h = size.1 as int;
        let per = h * (w - 1) + w * (h - 1);
        let area = w * h;
        assert(nz * per == (nz - 1) * per + per) by (nonlinear_arith);
        assert(nz * area == (nz - 1) * area + area) by (nonlinear_arith);
        assert((h - 1) * w == w * (h - 1)) by (nonlinear_arith);
        assert(h * w == w * h) by (nonlinear_arith);
    } else {
        assert(nz * (size.1 * (size.0 - 1) + size.0 * (size.1 - 1)) == 0) by (nonlinear_arith)
            requires
                nz == 0,
        ;
        assert(nz * (size.0 * size.1) == 0) by (nonlinear_arith)
            requires
                nz == 0,
        ;
    }
}

/// The candidate wall list holds exactly the inner faces of the grid, each
/// named by its forward side, and holds none of them twice.
pub proof fn lemma_candidates_exact(size: Dims3D)
    requires
        size.is_size(),
    ensures
        forall|p: Passage| #[trigger] candidate_walls(size).contains(p) <==> valid_candidate(size, p),
        candidate_walls(size).no_duplicates(),
{
    assert forall|p: Passage| #[trigger]
        candidate_walls(size).contains(p) <==> valid_candidate(size, p) by {
        lemma_grid_walls(size, size.2 as int, p);
    }
    lemma_grid_walls(size, size.2 as int, (size, CellWall::Right));
}

/// The candidate wall list of a grid of `w * h * d` cells has
/// `(h * (w - 1) + w * (h - 1)) * d + w * h * (d - 1)` entries.
pub proof fn lemma_candidates_count(size: Dims3D)
    requires
        size.is_size(),
    ensures
        candidate_walls(size).len() == wall_count(size),
{
    lemma_grid_walls(size, size.2 as int, (size, CellWall::Right));
    let w = size.0 as int;
    let h = size.1 as int;
    let d = size.2 as int;
    assert(d * (h * (w - 1) + w * (h - 1)) == (h * (w - 1) + w * (h - 1)) * d)
        by (nonlinear_arith);
    assert((d - 1) * (w * h) == w * h * (d - 1)) by (nonlinear_arith);
}

} // verus!
