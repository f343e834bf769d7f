//! Integer vectors used as grid sizes, cell coordinates and screen positions.

use vstd::prelude::*;

verus! {

/// A pair of screen columns and rows, used both as a position and as an extent.
#[derive(Clone, Copy, Debug, PartialEq, Eq, Hash, Structural)]
pub struct Dims(pub i32, pub i32);

/// An integer triple `(x, y, z)`, used both as a grid size and as the
/// coordinate of a cell.
#[derive(Clone, Copy, Debug, PartialEq, Eq, Hash, Structural)]
pub struct Dims3D(pub i32, pub i32, pub i32);

/// Number of cells of a grid of `w` columns, `h` rows and `d` floors.
pub open spec fn box_volume(w: int, h: int, d: int) -> int {
    w * h * d
}

impl Dims3D {
    /// Whether the triple can serve as a grid size: every component at least 1.
    pub open spec fn is_size(self) -> bool {
        self.0 >= 1 && self.1 >= 1 && self.2 >= 1
    }

    /// Whether some component is zero.
    pub open spec fn has_zero(self) -> bool {
        self.0 == 0 || self.1 == 0 || self.2 == 0
    }

    /// Whether the cells of a grid of this size can be counted in a `usize`.
    pub open spec fn is_countable(self) -> bool {
        self.volume() <= usize::MAX
    }

    /// Whether the triple can be asked of the generator: a triple with a
    /// zero component, which is answered with an error, or a size whose
    /// cells can be counted in a `usize`.
    pub open spec fn is_request(self) -> bool {
        self.has_zero() || (self.is_size() && self.is_countable())
    }

    /// Number of cells of a grid of this size.
    pub open spec fn volume(self) -> int {
        box_volume(self.0 as int, self.1 as int, self.2 as int)
    }

    /// Whether `self` is the coordinate of a cell of a grid of size `size`.
    pub open spec fn within(self, size: Dims3D) -> bool {
        &&& 0 <= self.0 < size.0
        &&& 0 <= self.1 < size.1
        &&& 0 <= self.2 < size.2
    }

    /// The number of the cell at `self` in a grid of size `size`, counting
    /// left to right, then row by row, then floor by floor.
    pub open spec fn number(self, size: Dims3D) -> int {
        self.0 + size.0 * (self.1 + size.1 * self.2)
    }
}

/// The number of cells of a countable size fits in a `usize`.
pub proof fn lemma_countable(size: Dims3D)
    requires
        size.is_size(),
        size.is_countable(),
    ensures
        1 <= size.volume() <= usize::MAX,
        1 <= size.0 * size.1 <= size.volume(),
{
    let (w, h, d) = (size.0 as int, size.1 as int, size.2 as int);
    assert(1 <= w * h <= w * h * d) by (nonlinear_arith)
        requires
            w >= 1,
            h >= 1,
            d >= 1,
    ;
}

/// Cell numbers run below the number of cells.
pub proof fn lemma_number_bound(size: Dims3D, c: Dims3D)
    requires
        size.is_size(),
        c.within(size),
    ensures
        0 <= c.number(size) < size.volume(),
{
    let (w, h, d) = (size.0 as int, size.1 as int, size.2 as int);
    let (x, y, z) = (c.0 as int, c.1 as int, c.2 as int);
    assert(0 <= h * z <= h * (d - 1)) by (nonlinear_arith)
        requires
            0 <= z <= d - 1,
            h >= 1,
    ;
    let q = y + h * z;
    assert(h * (d - 1) == h * d - h) by (nonlinear_arith);
    assert(0 <= w * q <= w * (h * d - 1)) by (nonlinear_arith)
        requires
            0 <= q <= h * d - 1,
            w >= 1,
    ;
    assert(w * (h * d - 1) == w * h * d - w) by (nonlinear_arith);
}

/// Distinct cells of a grid have distinct numbers.
pub proof fn lemma_number_injective(size: Dims3D, a: Dims3D, b: Dims3D)
    requires
        size.is_size(),
        a.within(size),
        b.within(size),
        a.number(size) == b.number(size),
    ensures
        a == b,
{
    let (w, h) = (size.0 as int, size.1 as int);
    let qa = a.1 + h * a.2;
    let qb = b.1 + h * b.2;
    assert(a.0 == b.0 && qa == qb) by (nonlinear_arith)
        requires
            a.0 + w * qa == b.0 + w * qb,
            0 <= a.0 < w,
            0 <= b.0 < w,
    ;
    assert(a.1 == b.1 && a.2 == b.2) by (nonlinear_arith)
        requires
            a.1 + h * a.2 == b.1 + h * b.2,
            0 <= a.1 < h,
            0 <= b.1 < h,
    ;
}

/// Every number below the number of cells is the number of a cell of the grid.
pub proof fn lemma_number_onto(size: Dims3D, i: int) -> (c: Dims3D)
    requires
        size.is_size(),
        0 <= i < size.volume(),
    ensures
        c.within(size),
        c.number(size) == i,
{
    let (w, h, d) = (size.0 as int, size.1 as int, size.2 as int);
    let x = i % w;
    let q = i / w;
    vstd::arithmetic::div_mod::lemma_fundamental_div_mod(i, w);
    vstd::arithmetic::div_mod::lemma_mod_pos_bound(i, w);
    vstd::arithmetic::div_mod::lemma_div_pos_is_pos(i, w);
    assert(q < h * d) by (nonlinear_arith)
        requires
            i == w * q + x,
            0 <= x,
            i < w * h * d,
            w >= 1,
    ;
    let y = q % h;
    let z = q / h;
    vstd::arithmetic::div_mod::lemma_fundamental_div_mod(q, h);
    vstd::arithmetic::div_mod::lemma_mod_pos_bound(q, h);
    vstd::arithmetic::div_mod::lemma_div_pos_is_pos(q, h);
    assert(z < d) by (nonlinear_arith)
        requires
            q == h * z + y,
            0 <= y,
            q < h * d,
            h >= 1,
    ;
    Dims3D(x as i32, y as i32, z as i32)
}

/// The number of the cell at `c` in a grid of size `size`.
pub fn cell_number(size: Dims3D, c: Dims3D) -> (n: usize)
    requires
        size.is_size(),
        size.is_countable(),
        c.within(size),
    ensures
        n == c.number(size),
{
    proof {
        lemma_countable(size);
        lemma_number_bound(size, c);
        lemma_number_bound(size, Dims3D(0, c.1, c.2));
        let (w, h) = (size.0 as int, size.1 as int);
        let q = c.1 + h * c.2;
        assert(0 <= h * c.2 <= w * (h * c.2)) by (nonlinear_arith)
            requires
                w >= 1,
                h >= 1,
                c.2 >= 0,
        ;
        assert(0 <= q <= w * q) by (nonlinear_arith)
            requires
                w >= 1,
                q >= 0,
        ;
        assert(w * q == w * c.1 + w * (h * c.2)) by (nonlinear_arith)
            requires
                q == c.1 + h * c.2,
        ;
        assert(0 <= w * c.1) by (nonlinear_arith)
            requires
                w >= 1,
                c.1 >= 0,
        ;
    }
    let (w, h) = (size.0 as usize, size.1 as usize);
    let (x, y, z) = (c.0 as usize, c.1 as usize, c.2 as usize);
    x + w * (y + h * z)
}

} // verus!
