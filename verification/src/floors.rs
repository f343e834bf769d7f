//! Floors of a grid: what a grid stacked from single-floor grids and linked
//! by one vertical passage per pair of adjacent floors looks like.

use vstd::prelude::*;
use crate::cell::CellWall;
use crate::dims::Dims3D;
use crate::graph::{
    crosses, joined, lemma_joined_link, lemma_joined_map, lemma_joined_mono, lemma_joined_sym,
    lemma_joined_trans, linked, Passage,
};
use crate::spanning::{
    carved, is_shuffle, lemma_carved_basic, lemma_shuffle_covers, lemma_spanning_tree,
};
use crate::walls::valid_candidate;

verus! {

/// The size of one floor of a grid of size `size`.
pub open spec fn floor_size(size: Dims3D) -> Dims3D {
    Dims3D(size.0, size.1, 1)
}

/// If the cells of a grid can be counted in a `usize`, so can those of one
/// of its floors.
pub proof fn lemma_countable_floor(size: Dims3D)
    requires
        size.is_size(),
        size.is_countable(),
    ensures
        floor_size(size).is_countable(),
{
    let (w, h, d) = (size.0 as int, size.1 as int, size.2 as int);
    assert(w * h * 1 <= w * h * d) by (nonlinear_arith)
        requires
            w >= 1,
            h >= 1,
            d >= 1,
    ;
}

/// The cell of the ground floor that stands in the column of `c`.
pub open spec fn grounded(c: Dims3D) -> Dims3D {
    Dims3D(c.0, c.1, 0)
}

/// The cell of floor `z` that stands in the column of `c`.
pub open spec fn raised(c: Dims3D, z: int) -> Dims3D {
    Dims3D(c.0, c.1, z as i32)
}

/// The passages of `open`, taken as passages of a ground floor, moved to floor `z`.
pub open spec fn raised_set(open: Set<Passage>, z: int) -> Set<Passage> {
    Set::new(|p: Passage| p.0.2 == z && open.contains((grounded(p.0), p.1)))
}

/// The passages of `open` that run within floor `z`.
pub open spec fn floor_passages(open: Set<Passage>, z: int) -> Set<Passage> {
    Set::new(|p: Passage| open.contains(p) && p.0.2 == z && p.1 != CellWall::Up)
}

/// The passages of `open` that lead from floor `z` to the floor above it.
pub open spec fn floor_links(open: Set<Passage>, z: int) -> Set<Passage> {
    Set::new(|p: Passage| open.contains(p) && p.0.2 == z && p.1 == CellWall::Up)
}

/// A spanning tree of the single floor, moved to floor `z` of a grid, joins
/// all cells of that floor with one passage less than the floor has cells.
pub proof fn lemma_raised_floor(size: Dims3D, order: Seq<Passage>, z: int)
    requires
        size.is_size(),
        0 <= z < size.2,
        is_shuffle(floor_size(size), order),
    ensures
        raised_set(carved(order), z).finite(),
        raised_set(carved(order), z).len() == floor_size(size).volume() - 1,
        forall|p: Passage| #[trigger]
            raised_set(carved(order), z).contains(p) ==> p.0.within(size) && p.1 != CellWall::Up
                && p.1.is_forward(),
        forall|a: Dims3D, b: Dims3D|
            a.within(size) && b.within(size) && a.2 == z && b.2 == z ==> #[trigger] joined(
                raised_set(carved(order), z),
                a,
                b,
            ),
{
    let fsize = floor_size(size);
    let tree = carved(order);
    let image = raised_set(tree, z);
    lemma_shuffle_covers(fsize, order);
    lemma_spanning_tree(fsize, order);
    lemma_carved_basic(order);
    // Every passage of the tree is an inner face of the single floor: it
    // lies on the ground and leads to the right or to the bottom.
    assert forall|p: Passage| tree.contains(p) implies valid_candidate(fsize, p) by {
        assert(order.contains(p));
    }
    // Moving the passages up is one-to-one.
    let f = |p: Passage| (raised(p.0, z), p.1);
    assert forall|q: Passage| image.contains(q) implies tree.map(f).contains(q) by {
        assert(q == f((grounded(q.0), q.1)));
    }
    assert(tree.map(f) =~= image);
    assert(vstd::relations::injective_on(f, tree));
    vstd::set_lib::lemma_map_size(tree, image, f);
    // Walks on the single floor move up with their cells.
    let g = |c: Dims3D| raised(c, z);
    assert forall|x: Dims3D, y: Dims3D| #[trigger] linked(tree, x, y) implies linked(
        image,
        g(x),
        g(y),
    ) by {
        if crosses(tree, x, y) {
            let w = choose|w: CellWall| #[trigger] tree.contains((x, w)) && x.step(w) == y;
            assert(image.contains((g(x), w)));
        } else {
            let w = choose|w: CellWall| #[trigger] tree.contains((y, w)) && y.step(w) == x;
            assert(image.contains((g(y), w)));
        }
    }
    assert forall|a: Dims3D, b: Dims3D|
        a.within(size) && b.within(size) && a.2 == z && b.2 == z implies #[trigger] joined(
        image,
        a,
        b,
    ) by {
        lemma_joined_map(tree, image, g, grounded(a), grounded(b));
    }
}

/// Whether some passage of `open` leads up from a cell of floor `z`.
pub open spec fn has_link(size: Dims3D, open: Set<Passage>, z: int) -> bool {
    exists|c: Dims3D| c.within(size) && c.2 == z && #[trigger] open.contains((c, CellWall::Up))
}

proof fn lemma_floor_reaches_origin(size: Dims3D, open: Set<Passage>, z: int)
    requires
        size.is_size(),
        0 <= z < size.2,
        forall|a: Dims3D, b: Dims3D|
            a.within(size) && b.within(size) && a.2 == b.2 ==> #[trigger] joined(open, a, b),
        forall|k: int| 0 <= k < size.2 - 1 ==> #[trigger] has_link(size, open, k),
    ensures
        forall|a: Dims3D| a.within(size) && a.2 == z ==> #[trigger] joined(open, Dims3D(0, 0, 0), a),
    decreases z,
{
    let origin = Dims3D(0, 0, 0);
    if z > 0 {
        lemma_floor_reaches_origin(size, open, z - 1);
        assert(has_link(size, open, z - 1));
        let c = choose|c: Dims3D|
            c.within(size) && c.2 == z - 1 && #[trigger] open.contains((c, CellWall::Up));
        let up = c.step(CellWall::Up);
        lemma_joined_link(open, c, up);
        lemma_joined_trans(open, origin, c, up);
        assert forall|a: Dims3D| a.within(size) && a.2 == z implies #[trigger] joined(
            open,
            origin,
            a,
        ) by {
            lemma_joined_trans(open, origin, up, a);
        }
    }
}

/// If the cells of each floor are joined among themselves, and a passage
/// leads up from every floor but the last, then all cells are joined.
pub proof fn lemma_stacked_connected(size: Dims3D, open: Set<Passage>)
    requires
        size.is_size(),
        forall|a: Dims3D, b: Dims3D|
            a.within(size) && b.within(size) && a.2 == b.2 ==> #[trigger] joined(open, a, b),
        forall|k: int| 0 <= k < size.2 - 1 ==> #[trigger] has_link(size, open, k),
    ensures
        forall|a: Dims3D, b: Dims3D|
            a.within(size) && b.within(size) ==> #[trigger] joined(open, a, b),
{
    let origin = Dims3D(0, 0, 0);
    assert forall|a: Dims3D, b: Dims3D| a.within(size) && b.within(size) implies #[trigger] joined(
        open,
        a,
        b,
    ) by {
        lemma_floor_reaches_origin(size, open, a.2 as int);
        lemma_floor_reaches_origin(size, open, b.2 as int);
        lemma_joined_sym(open, origin, a);
        lemma_joined_trans(open, a, origin, b);
    }
}

/// Whether the passages of `open` within floor `z` are a spanning tree of
/// the single floor, built from some shuffle of its candidate walls.
pub open spec fn floor_tree(size: Dims3D, open: Set<Passage>, z: int) -> bool {
    exists|order: Seq<Passage>| #[trigger]
        is_shuffle(floor_size(size), order) && floor_passages(open, z) == raised_set(
            carved(order),
            z,
        )
}

/// Whether exactly one passage of `open` leads up from floor `z`.
pub open spec fn one_link(size: Dims3D, open: Set<Passage>, z: int) -> bool {
    exists|c: Dims3D|
        c.within(size) && c.2 == z && #[trigger] open.contains((c, CellWall::Up)) && floor_links(
            open,
            z,
        ) == set![(c, CellWall::Up)]
}

/// A grid whose floors each hold a spanning tree of the floor, and in which
/// exactly one passage leads up from every floor but the last, is connected;
/// each floor holds one passage less than it has cells.
pub proof fn lemma_floored_spanning(size: Dims3D, open: Set<Passage>)
    requires
        size.is_size(),
        forall|z: int| 0 <= z < size.2 ==> #[trigger] floor_tree(size, open, z),
        forall|z: int| 0 <= z < size.2 - 1 ==> #[trigger] one_link(size, open, z),
    ensures
        forall|a: Dims3D, b: Dims3D|
            a.within(size) && b.within(size) ==> #[trigger] joined(open, a, b),
        forall|z: int|
            0 <= z < size.2 ==> (#[trigger] floor_passages(open, z)).finite() && floor_passages(
                open,
                z,
            ).len() == floor_size(size).volume() - 1,
        forall|z: int|
            0 <= z < size.2 - 1 ==> (#[trigger] floor_links(open, z)).finite() && floor_links(
                open,
                z,
            ).len() == 1,
{
    assert forall|z: int| 0 <= z < size.2 implies (#[trigger] floor_passages(open, z)).finite()
        && floor_passages(open, z).len() == floor_size(size).volume() - 1 by {
        assert(floor_tree(size, open, z));
        let order = choose|order: Seq<Passage>| #[trigger]
            is_shuffle(floor_size(size), order) && floor_passages(open, z) == raised_set(
                carved(order),
                z,
            );
        lemma_raised_floor(size, order, z);
    }
    assert forall|a: Dims3D, b: Dims3D|
        a.within(size) && b.within(size) && a.2 == b.2 implies #[trigger] joined(open, a, b) by {
        let z = a.2 as int;
        assert(floor_tree(size, open, z));
        let order = choose|order: Seq<Passage>| #[trigger]
            is_shuffle(floor_size(size), order) && floor_passages(open, z) == raised_set(
                carved(order),
                z,
            );
        lemma_raised_floor(size, order, z);
        lemma_joined_mono(floor_passages(open, z), open, a, b);
    }
    assert forall|k: int| 0 <= k < size.2 - 1 implies #[trigger] has_link(size, open, k) by {
        assert(one_link(size, open, k));
    }
    assert forall|z: int| 0 <= z < size.2 - 1 implies (#[trigger] floor_links(open, z)).finite()
        && floor_links(open, z).len() == 1 by {
        assert(one_link(size, open, z));
    }
    lemma_stacked_connected(size, open);
}

/// The passages of `open` that start on one of the first `n` floors.
pub open spec fn passages_below(open: Set<Passage>, n: int) -> Set<Passage> {
    Set::new(|p: Passage| open.contains(p) && 0 <= p.0.2 < n)
}

proof fn lemma_count_below(size: Dims3D, open: Set<Passage>, n: int)
    requires
        size.is_size(),
        0 <= n <= size.2,
        forall|p: Passage| open.contains(p) ==> #[trigger] valid_candidate(size, p),
        forall|z: int|
            0 <= z < size.2 ==> (#[trigger] floor_passages(open, z)).finite() && floor_passages(
                open,
                z,
            ).len() == floor_size(size).volume() - 1,
        forall|z: int|
            0 <= z < size.2 - 1 ==> (#[trigger] floor_links(open, z)).finite() && floor_links(
                open,
                z,
            ).len() == 1,
    ensures
        passages_below(open, n).finite(),
        passages_below(open, n).len() == n * (floor_size(size).volume() - 1) + (if n < size.2 {
            n
        } else {
            size.2 - 1
        }),
    decreases n,
{
    let per = floor_size(size).volume() - 1;
    if n == 0 {
        assert(passages_below(open, 0) =~= Set::<Passage>::empty());
        assert(n * per == 0) by (nonlinear_arith)
            requires
                n == 0,
        ;
    } else {
        lemma_count_below(size, open, n - 1);
        let lower = passages_below(open, n - 1);
        let within = floor_passages(open, n - 1);
        let links = floor_links(open, n - 1);
        if n == size.2 {
            // No passage leads up from the last floor.
            assert forall|p: Passage| !links.contains(p) by {
                if links.contains(p) {
                    assert(valid_candidate(size, p));
                }
            }
            assert(links =~= Set::<Passage>::empty());
        }
        assert(passages_below(open, n) =~= lower + within + links);
        assert(lower.disjoint(within));
        assert((lower + within).disjoint(links));
        vstd::set_lib::lemma_set_disjoint_lens(lower, within);
        vstd::set_lib::lemma_set_disjoint_lens(lower + within, links);
        assert(n * per == (n - 1) * per + per) by (nonlinear_arith);
    }
}

/// A grid of nothing but inner faces, whose floors each hold one passage
/// less than they have cells, and in which one passage leads up from every
/// floor but the last, holds one passage less than it has cells.
pub proof fn lemma_floored_count(size: Dims3D, open: Set<Passage>)
    requires
        size.is_size(),
        forall|p: Passage| open.contains(p) ==> #[trigger] valid_candidate(size, p),
        forall|z: int|
            0 <= z < size.2 ==> (#[trigger] floor_passages(open, z)).finite() && floor_passages(
                open,
                z,
            ).len() == floor_size(size).volume() - 1,
        forall|z: int|
            0 <= z < size.2 - 1 ==> (#[trigger] floor_links(open, z)).finite() && floor_links(
                open,
                z,
            ).len() == 1,
    ensures
        open.finite(),
        open.len() == size.volume() - 1,
{
    lemma_count_below(size, open, size.2 as int);
    assert forall|p: Passage| open.contains(p) implies passages_below(open, size.2 as int).contains(
        p,
    ) by {
        assert(valid_candidate(size, p));
    }
    assert(passages_below(open, size.2 as int) =~= open);
    let (w, h, d) = (size.0 as int, size.1 as int, size.2 as int);
    assert(d * (w * h * 1 - 1) + (d - 1) == w * h * d - 1) by (nonlinear_arith);
}

} // verus!
