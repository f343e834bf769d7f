//! Open passages as an undirected graph on cells: walks and reachability.

use vstd::prelude::*;
use crate::cell::CellWall;
use crate::dims::Dims3D;

verus! {

/// A passage is named by a cell and the face of that cell it goes through.
pub type Passage = (Dims3D, CellWall);

/// The cell on the other side of passage `p`.
pub open spec fn far_end(p: Passage) -> Dims3D {
    p.0.step(p.1)
}

/// Whether some passage of `open` leaves `a` and arrives at `b`.
pub open spec fn crosses(open: Set<Passage>, a: Dims3D, b: Dims3D) -> bool {
    exists|w: CellWall| #[trigger] open.contains((a, w)) && a.step(w) == b
}

/// Whether one passage of `open` connects `a` and `b`, in either direction.
pub open spec fn linked(open: Set<Passage>, a: Dims3D, b: Dims3D) -> bool {
    crosses(open, a, b) || crosses(open, b, a)
}

/// A walk is a non-empty sequence of cells in which each cell is linked to the next.
pub open spec fn is_walk(open: Set<Passage>, p: Seq<Dims3D>) -> bool {
    &&& p.len() >= 1
    &&& forall|i: int| 0 <= i < p.len() - 1 ==> linked(open, #[trigger] p[i], p[i + 1])
}

/// Whether a walk through passages of `open` leads from `a` to `b`.
pub open spec fn joined(open: Set<Passage>, a: Dims3D, b: Dims3D) -> bool {
    exists|p: Seq<Dims3D>| #[trigger] is_walk(open, p) && p.first() == a && p.last() == b
}

/// Every cell is joined to itself.
pub proof fn lemma_joined_refl(open: Set<Passage>, a: Dims3D)
    ensures
        joined(open, a, a),
{
    let p = seq![a];
    assert(is_walk(open, p));
}

/// A walk can be prolonged by one link.
pub proof fn lemma_joined_extend(open: Set<Passage>, a: Dims3D, b: Dims3D, c: Dims3D)
    requires
        joined(open, a, b),
        linked(open, b, c),
    ensures
        joined(open, a, c),
{
    let p = choose|p: Seq<Dims3D>| #[trigger] is_walk(open, p) && p.first() == a && p.last() == b;
    let q = p.push(c);
    assert(is_walk(open, q));
}

/// With no passage open, a cell is joined to itself only.
pub proof fn lemma_joined_empty(a: Dims3D, b: Dims3D)
    requires
        joined(Set::<Passage>::empty(), a, b),
    ensures
        a == b,
{
    let open = Set::<Passage>::empty();
    let p = choose|p: Seq<Dims3D>| #[trigger] is_walk(open, p) && p.first() == a && p.last() == b;
    if p.len() > 1 {
        assert(linked(open, p[0], p[1]));
    }
}

/// Linked cells are joined.
pub proof fn lemma_joined_link(open: Set<Passage>, a: Dims3D, b: Dims3D)
    requires
        linked(open, a, b),
    ensures
        joined(open, a, b),
{
    lemma_joined_refl(open, a);
    lemma_joined_extend(open, a, a, b);
}

proof fn lemma_walk_trans(open: Set<Passage>, a: Dims3D, p: Seq<Dims3D>)
    requires
        is_walk(open, p),
        joined(open, a, p.first()),
    ensures
        joined(open, a, p.last()),
    decreases p.len(),
{
    if p.len() > 1 {
        let q = p.drop_last();
        assert(is_walk(open, q));
        lemma_walk_trans(open, a, q);
        assert(linked(open, q.last(), p.last()));
        lemma_joined_extend(open, a, q.last(), p.last());
    }
}

/// Being joined is transitive.
pub proof fn lemma_joined_trans(open: Set<Passage>, a: Dims3D, b: Dims3D, c: Dims3D)
    requires
        joined(open, a, b),
        joined(open, b, c),
    ensures
        joined(open, a, c),
{
    let p = choose|p: Seq<Dims3D>| #[trigger] is_walk(open, p) && p.first() == b && p.last() == c;
    lemma_walk_trans(open, a, p);
}

proof fn lemma_walk_sym(open: Set<Passage>, p: Seq<Dims3D>)
    requires
        is_walk(open, p),
    ensures
        joined(open, p.last(), p.first()),
    decreases p.len(),
{
    if p.len() == 1 {
        lemma_joined_refl(open, p.first());
    } else {
        let q = p.drop_last();
        assert(is_walk(open, q));
        lemma_walk_sym(open, q);
        assert(linked(open, q.last(), p.last()));
        lemma_joined_link(open, p.last(), q.last());
        lemma_joined_trans(open, p.last(), q.last(), p.first());
    }
}

/// Being joined is symmetric.
pub proof fn lemma_joined_sym(open: Set<Passage>, a: Dims3D, b: Dims3D)
    requires
        joined(open, a, b),
    ensures
        joined(open, b, a),
{
    let p = choose|p: Seq<Dims3D>| #[trigger] is_walk(open, p) && p.first() == a && p.last() == b;
    lemma_walk_sym(open, p);
}

proof fn lemma_walk_mono(open: Set<Passage>, more: Set<Passage>, p: Seq<Dims3D>)
    requires
        is_walk(open, p),
        open.subset_of(more),
    ensures
        is_walk(more, p),
{
    assert forall|i: int| 0 <= i < p.len() - 1 implies linked(more, #[trigger] p[i], p[i + 1]) by {
        assert(linked(open, p[i], p[i + 1]));
    }
}

/// Opening more passages keeps joined cells joined.
pub proof fn lemma_joined_mono(open: Set<Passage>, more: Set<Passage>, a: Dims3D, b: Dims3D)
    requires
        joined(open, a, b),
        open.subset_of(more),
    ensures
        joined(more, a, b),
{
    let p = choose|p: Seq<Dims3D>| #[trigger] is_walk(open, p) && p.first() == a && p.last() == b;
    lemma_walk_mono(open, more, p);
}

/// What one more passage `e` can join: `a` and `b` are joined afterwards only
/// if they were joined before, or one was joined to one end of `e` and the
/// other to its other end.
pub open spec fn joined_through(open: Set<Passage>, e: Passage, a: Dims3D, b: Dims3D) -> bool {
    ||| joined(open, a, b)
    ||| joined(open, a, e.0) && joined(open, e.0.step(e.1), b)
    ||| joined(open, a, e.0.step(e.1)) && joined(open, e.0, b)
}

proof fn lemma_walk_split(open: Set<Passage>, e: Passage, p: Seq<Dims3D>)
    requires
        is_walk(open.insert(e), p),
    ensures
        joined_through(open, e, p.first(), p.last()),
    decreases p.len(),
{
    let a = p.first();
    let u = e.0;
    let v = e.0.step(e.1);
    if p.len() == 1 {
        lemma_joined_refl(open, a);
    } else {
        let more = open.insert(e);
        let q = p.drop_last();
        assert(is_walk(more, q));
        lemma_walk_split(open, e, q);
        let c = q.last();
        let b = p.last();
        assert(linked(more, c, b));
        lemma_joined_refl(open, u);
        lemma_joined_refl(open, v);
        // Either the last link is an old one, which prolongs the walk that
        // led to `c`, or it is the new passage, and `c` and `b` are its ends.
        if linked(open, c, b) {
            if joined(open, a, c) {
                lemma_joined_extend(open, a, c, b);
            } else if joined(open, a, u) && joined(open, v, c) {
                lemma_joined_extend(open, v, c, b);
            } else {
                lemma_joined_extend(open, u, c, b);
            }
        } else {
            assert((c == u && b == v) || (c == v && b == u));
        }
    }
}

/// Opening one passage joins no more than what was joined to its two ends.
pub proof fn lemma_joined_split(open: Set<Passage>, e: Passage, a: Dims3D, b: Dims3D)
    requires
        joined(open.insert(e), a, b),
    ensures
        joined_through(open, e, a, b),
{
    let p = choose|p: Seq<Dims3D>| #[trigger] is_walk(open.insert(e), p) && p.first() == a && p.last() == b;
    lemma_walk_split(open, e, p);
}

/// Opening one passage joins everything that was joined to its two ends.
pub proof fn lemma_joined_insert(open: Set<Passage>, e: Passage, a: Dims3D, b: Dims3D)
    requires
        joined_through(open, e, a, b),
    ensures
        joined(open.insert(e), a, b),
{
    let more = open.insert(e);
    let u = e.0;
    let v = e.0.step(e.1);
    assert(more.contains((u, e.1)));
    lemma_joined_link(more, u, v);
    lemma_joined_sym(more, u, v);
    if joined(open, a, b) {
        lemma_joined_mono(open, more, a, b);
    } else if joined(open, a, u) && joined(open, v, b) {
        lemma_joined_mono(open, more, a, u);
        lemma_joined_mono(open, more, v, b);
        lemma_joined_trans(more, a, u, v);
        lemma_joined_trans(more, a, v, b);
    } else {
        lemma_joined_mono(open, more, a, v);
        lemma_joined_mono(open, more, u, b);
        lemma_joined_trans(more, a, v, u);
        lemma_joined_trans(more, a, u, b);
    }
}

/// A map of cells that carries links of `open` to links of `image` carries
/// joined cells to joined cells.
pub proof fn lemma_joined_map(
    open: Set<Passage>,
    image: Set<Passage>,
    g: spec_fn(Dims3D) -> Dims3D,
    a: Dims3D,
    b: Dims3D,
)
    requires
        forall|x: Dims3D, y: Dims3D| #[trigger] linked(open, x, y) ==> linked(image, g(x), g(y)),
        joined(open, a, b),
    ensures
        joined(image, g(a), g(b)),
{
    let p = choose|p: Seq<Dims3D>| #[trigger] is_walk(open, p) && p.first() == a && p.last() == b;
    let q = p.map_values(g);
    assert forall|i: int| 0 <= i < q.len() - 1 implies linked(image, #[trigger] q[i], q[i + 1]) by {
        assert(linked(open, p[i], p[i + 1]));
    }
    assert(is_walk(image, q));
}

} // verus!
