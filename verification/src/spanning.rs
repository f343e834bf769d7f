//! What the randomized spanning-tree builder computes, as a function of the
//! order in which it consumes the candidate walls, and why the result is a
//! spanning tree of the grid.

use vstd::prelude::*;
use crate::dims::{lemma_number_bound, lemma_number_injective, lemma_number_onto, Dims3D};
use crate::graph::{
    crosses, far_end, joined, lemma_joined_empty, lemma_joined_insert, lemma_joined_link,
    lemma_joined_mono, lemma_joined_refl, lemma_joined_split, lemma_joined_sym,
    lemma_joined_trans, Passage,
};
use crate::cell::CellWall;
use crate::partition::{
    holds, inhabited, is_partition, lemma_merge_partition, lemma_singletons, merged, placed, same,
};
use crate::walls::{
    candidate_walls, lemma_candidates_count, lemma_candidates_exact, valid_candidate, wall_count,
};

verus! {

/// The passages that are open after the candidate list `walls` was consumed
/// from its back to its front: a candidate opens unless its two cells were
/// already joined by the passages opened before it.
pub open spec fn carved(walls: Seq<Passage>) -> Set<Passage>
    decreases walls.len(),
{
    if walls.len() == 0 {
        Set::<Passage>::empty()
    } else {
        let earlier = carved(walls.skip(1));
        if joined(earlier, walls[0].0, far_end(walls[0])) {
            earlier
        } else {
            earlier.insert(walls[0])
        }
    }
}

/// Whether the front entry of `walls`, the one consumed last, opens a passage.
pub open spec fn opens(walls: Seq<Passage>) -> bool {
    walls.len() > 0 && !joined(carved(walls.skip(1)), walls[0].0, far_end(walls[0]))
}

/// The progress values reported while `walls` is consumed from its back, in
/// the order of the reports: one for each candidate that opens a passage,
/// namely how many candidates were taken from the list up to and including it.
pub open spec fn reports(walls: Seq<Passage>) -> Seq<int>
    decreases walls.len(),
{
    if walls.len() == 0 {
        Seq::<int>::empty()
    } else {
        let earlier = reports(walls.skip(1));
        if opens(walls) {
            earlier.push(walls.len() as int)
        } else {
            earlier
        }
    }
}

/// Whether the component tracker `sets` mirrors the open passages `open` of a
/// grid of size `size`: two cells share a set exactly if they are joined, and
/// each open passage has cost one set.
pub open spec fn tracks(size: Dims3D, sets: Seq<Set<int>>, open: Set<Passage>) -> bool {
    &&& is_partition(sets, size.volume())
    &&& open.finite()
    &&& sets.len() + open.len() == size.volume()
    &&& forall|a: Dims3D, b: Dims3D|
        a.within(size) && b.within(size) ==> (same(
            sets,
            a.number(size),
            b.number(size),
        ) <==> #[trigger] joined(open, a, b))
}

/// The singletons mirror the grid with no passage open.
pub proof fn lemma_tracks_start(size: Dims3D, sets: Seq<Set<int>>)
    requires
        size.is_size(),
        sets.len() == size.volume(),
        forall|k: int| 0 <= k < sets.len() ==> #[trigger] sets[k] == set![k],
    ensures
        tracks(size, sets, Set::<Passage>::empty()),
{
    let open = Set::<Passage>::empty();
    lemma_singletons(sets, size.volume());
    assert forall|a: Dims3D, b: Dims3D| a.within(size) && b.within(size) implies (same(
        sets,
        a.number(size),
        b.number(size),
    ) <==> #[trigger] joined(open, a, b)) by {
        lemma_number_bound(size, a);
        lemma_number_bound(size, b);
        if joined(open, a, b) {
            lemma_joined_empty(a, b);
        }
        if a.number(size) == b.number(size) {
            lemma_number_injective(size, a, b);
            lemma_joined_refl(open, a);
        }
    }
}

/// A candidate whose two cells sit in one set joins nothing new.
pub proof fn lemma_tracks_reject(
    size: Dims3D,
    sets: Seq<Set<int>>,
    open: Set<Passage>,
    e: Passage,
    k: int,
)
    requires
        tracks(size, sets, open),
        valid_candidate(size, e),
        holds(sets, k, e.0.number(size)),
        holds(sets, k, far_end(e).number(size)),
    ensures
        joined(open, e.0, far_end(e)),
{
}

/// A candidate whose two cells sit in different sets was not joined; once it
/// is opened and the two sets are merged, the tracker mirrors the grid again.
pub proof fn lemma_tracks_accept(
    size: Dims3D,
    sets: Seq<Set<int>>,
    open: Set<Passage>,
    e: Passage,
    k0: int,
    k1: int,
)
    requires
        size.is_size(),
        tracks(size, sets, open),
        valid_candidate(size, e),
        holds(sets, k0, e.0.number(size)),
        holds(sets, k1, far_end(e).number(size)),
        k0 != k1,
    ensures
        !joined(open, e.0, far_end(e)),
        !open.contains(e),
        tracks(size, merged(sets, k0, k1), open.insert(e)),
{
    let ea = e.0;
    let eb = far_end(e);
    let na = ea.number(size);
    let nb = eb.number(size);
    let after = merged(sets, k0, k1);
    let more = open.insert(e);
    // The two cells sit in different sets: they are not joined, so the
    // passage between them is not open.
    assert(!same(sets, na, nb));
    if open.contains(e) {
        lemma_joined_link(open, ea, eb);
    }
    lemma_merge_partition(sets, k0, k1, size.volume());
    // A cell sits in the set of an end of `e` exactly if it is joined to
    // that end.
    assert forall|a: Dims3D| a.within(size) implies (holds(sets, k0, a.number(size))
        <==> #[trigger] joined(open, a, ea)) && (holds(sets, k1, a.number(size))
        <==> joined(open, a, eb)) by {
        let ia = a.number(size);
        assert(holds(sets, k0, ia) <==> same(sets, ia, na));
        assert(holds(sets, k1, ia) <==> same(sets, ia, nb));
    }
    assert forall|a: Dims3D, b: Dims3D| a.within(size) && b.within(size) implies (same(
        after,
        a.number(size),
        b.number(size),
    ) <==> #[trigger] joined(more, a, b)) by {
        if joined(more, a, b) {
            lemma_joined_split(open, e, a, b);
            if joined(open, eb, b) {
                lemma_joined_sym(open, eb, b);
            }
            if joined(open, ea, b) {
                lemma_joined_sym(open, ea, b);
            }
        }
        if same(after, a.number(size), b.number(size)) {
            if joined(open, b, ea) {
                lemma_joined_sym(open, b, ea);
                if joined(open, a, ea) {
                    lemma_joined_trans(open, a, ea, b);
                }
            }
            if joined(open, b, eb) {
                lemma_joined_sym(open, b, eb);
                if joined(open, a, eb) {
                    lemma_joined_trans(open, a, eb, b);
                }
            }
            lemma_joined_insert(open, e, a, b);
        }
    }
}

/// Once all cells are joined, one set is left, and the open passages number
/// one less than the cells.
pub proof fn lemma_tracks_spanning(size: Dims3D, sets: Seq<Set<int>>, open: Set<Passage>)
    requires
        size.is_size(),
        tracks(size, sets, open),
        forall|a: Dims3D, b: Dims3D|
            a.within(size) && b.within(size) ==> #[trigger] joined(open, a, b),
    ensures
        sets.len() == 1,
        open.len() == size.volume() - 1,
{
    let n = size.volume();
    assert(n >= 1) by (nonlinear_arith)
        requires
            n == size.0 * size.1 * size.2,
            size.0 >= 1,
            size.1 >= 1,
            size.2 >= 1,
    ;
    assert(placed(sets, 0));
    if sets.len() >= 2 {
        // Two sets would hold the numbers of two cells that are joined and
        // yet share no set.
        assert(inhabited(sets, 0));
        assert(inhabited(sets, 1));
        let i0 = choose|i: int| holds(sets, 0, i);
        let i1 = choose|i: int| holds(sets, 1, i);
        let c0 = lemma_number_onto(size, i0);
        let c1 = lemma_number_onto(size, i1);
        assert(joined(open, c0, c1));
        assert(!same(sets, i0, i1));
    }
}

/// Only candidates of the list are ever opened, and the count of reports is
/// the count of passages opened.
pub proof fn lemma_carved_basic(walls: Seq<Passage>)
    ensures
        carved(walls).finite(),
        forall|p: Passage| carved(walls).contains(p) ==> walls.contains(p),
        reports(walls).len() == carved(walls).len(),
    decreases walls.len(),
{
    if walls.len() > 0 {
        let rest = walls.skip(1);
        lemma_carved_basic(rest);
        let earlier = carved(rest);
        assert forall|p: Passage| carved(walls).contains(p) implies walls.contains(p) by {
            if earlier.contains(p) {
                assert(rest.contains(p));
                let i = choose|i: int| 0 <= i < rest.len() && rest[i] == p;
                assert(walls[i + 1] == p);
            } else {
                assert(walls[0] == p);
            }
        }
        // A candidate that opens was not open before: its cells were not joined.
        if opens(walls) && earlier.contains(walls[0]) {
            lemma_joined_link(earlier, walls[0].0, far_end(walls[0]));
        }
    }
}

/// Each report lies between 1 and the length of the list, and the reports
/// grow strictly.
pub proof fn lemma_reports_grow(walls: Seq<Passage>)
    ensures
        forall|i: int| 0 <= i < reports(walls).len() ==> 1 <= #[trigger] reports(walls)[i]
            <= walls.len(),
        forall|i: int, j: int|
            0 <= i < j < reports(walls).len() ==> reports(walls)[i] < reports(walls)[j],
    decreases walls.len(),
{
    if walls.len() > 0 {
        let rest = walls.skip(1);
        lemma_reports_grow(rest);
        // The reports of the rest stay below its length; the report of the
        // front entry, if there is one, is the length of the whole list.
        let earlier = reports(rest);
        let all = reports(walls);
        assert(forall|i: int| 0 <= i < earlier.len() ==> all[i] == earlier[i]);
    }
}

/// Whether `a` is an initial part of `b`.
pub open spec fn is_prefix(a: Seq<int>, b: Seq<int>) -> bool {
    a.len() <= b.len() && forall|i: int| 0 <= i < a.len() ==> a[i] == b[i]
}

/// What was opened and reported after only the last entries of the list were
/// consumed stays opened and reported when the rest is consumed too.
pub proof fn lemma_carved_grows(walls: Seq<Passage>, k: int)
    requires
        0 <= k <= walls.len(),
    ensures
        carved(walls.skip(k)).subset_of(carved(walls)),
        is_prefix(reports(walls.skip(k)), reports(walls)),
    decreases k,
{
    if k == 0 {
        assert(walls.skip(0) =~= walls);
    } else {
        lemma_carved_grows(walls, k - 1);
        let s = walls.skip(k - 1);
        assert(s.skip(1) =~= walls.skip(k));
    }
}

/// The two cells of every candidate of the list are joined in the end.
pub proof fn lemma_carved_joins(walls: Seq<Passage>, k: int)
    requires
        0 <= k < walls.len(),
    ensures
        joined(carved(walls), walls[k].0, far_end(walls[k])),
{
    let s = walls.skip(k);
    let earlier = carved(s.skip(1));
    if !joined(earlier, s[0].0, far_end(s[0])) {
        assert(carved(s).contains(s[0]));
        lemma_joined_link(carved(s), s[0].0, far_end(s[0]));
    }
    lemma_carved_grows(walls, k);
    lemma_joined_mono(carved(s), carved(walls), walls[k].0, far_end(walls[k]));
}

proof fn lemma_origin_joined(size: Dims3D, open: Set<Passage>, a: Dims3D)
    requires
        size.is_size(),
        a.within(size),
        forall|p: Passage| #[trigger] valid_candidate(size, p) ==> joined(open, p.0, far_end(p)),
    ensures
        joined(open, Dims3D(0, 0, 0), a),
    decreases a.0 + a.1 + a.2,
{
    let origin = Dims3D(0, 0, 0);
    if a.0 > 0 {
        let b = Dims3D((a.0 - 1) as i32, a.1, a.2);
        let p = (b, CellWall::Right);
        assert(valid_candidate(size, p));
        lemma_origin_joined(size, open, b);
        lemma_joined_trans(open, origin, b, a);
    } else if a.1 > 0 {
        let b = Dims3D(a.0, (a.1 - 1) as i32, a.2);
        let p = (b, CellWall::Bottom);
        assert(valid_candidate(size, p));
        lemma_origin_joined(size, open, b);
        lemma_joined_trans(open, origin, b, a);
    } else if a.2 > 0 {
        let b = Dims3D(a.0, a.1, (a.2 - 1) as i32);
        let p = (b, CellWall::Up);
        assert(valid_candidate(size, p));
        lemma_origin_joined(size, open, b);
        lemma_joined_trans(open, origin, b, a);
    } else {
        lemma_joined_refl(open, origin);
    }
}

/// If the two cells of every inner face of the grid are joined, then all
/// cells of the grid are joined.
pub proof fn lemma_grid_joined(size: Dims3D, open: Set<Passage>)
    requires
        size.is_size(),
        forall|p: Passage| #[trigger] valid_candidate(size, p) ==> joined(open, p.0, far_end(p)),
    ensures
        forall|a: Dims3D, b: Dims3D|
            a.within(size) && b.within(size) ==> #[trigger] joined(open, a, b),
{
    let origin = Dims3D(0, 0, 0);
    assert forall|a: Dims3D, b: Dims3D| a.within(size) && b.within(size) implies #[trigger] joined(
        open,
        a,
        b,
    ) by {
        lemma_origin_joined(size, open, a);
        lemma_origin_joined(size, open, b);
        lemma_joined_sym(open, origin, a);
        lemma_joined_trans(open, a, origin, b);
    }
}

/// Whether the list `walls` holds every inner face of a grid of size `size`.
pub open spec fn covers_grid(size: Dims3D, walls: Seq<Passage>) -> bool {
    forall|p: Passage| #[trigger] valid_candidate(size, p) ==> walls.contains(p)
}

/// Consuming a list that holds every inner face of the grid joins all cells.
pub proof fn lemma_carved_connects(size: Dims3D, walls: Seq<Passage>)
    requires
        size.is_size(),
        covers_grid(size, walls),
    ensures
        forall|a: Dims3D, b: Dims3D|
            a.within(size) && b.within(size) ==> #[trigger] joined(carved(walls), a, b),
{
    let open = carved(walls);
    assert forall|p: Passage| #[trigger] valid_candidate(size, p) implies joined(
        open,
        p.0,
        far_end(p),
    ) by {
        let k = choose|k: int| 0 <= k < walls.len() && walls[k] == p;
        lemma_carved_joins(walls, k);
    }
    lemma_grid_joined(size, open);
}

/// Whether `order` holds the candidate walls of a grid of size `size`, each as
/// often as the candidate list does, in any order.
pub open spec fn is_shuffle(size: Dims3D, order: Seq<Passage>) -> bool {
    order.to_multiset() == candidate_walls(size).to_multiset()
}

/// A shuffled candidate list has the length of the candidate list, holds
/// nothing but inner faces of the grid, and holds all of them.
pub proof fn lemma_shuffle_covers(size: Dims3D, order: Seq<Passage>)
    requires
        size.is_size(),
        is_shuffle(size, order),
    ensures
        order.len() == wall_count(size),
        forall|i: int| 0 <= i < order.len() ==> valid_candidate(size, #[trigger] order[i]),
        covers_grid(size, order),
{
    broadcast use vstd::seq_lib::to_multiset_contains;

    let all = candidate_walls(size);
    lemma_candidates_exact(size);
    lemma_candidates_count(size);
    vstd::seq_lib::to_multiset_len(order);
    vstd::seq_lib::to_multiset_len(all);
    assert forall|i: int| 0 <= i < order.len() implies valid_candidate(size, #[trigger] order[i]) by {
        assert(order.to_multiset().count(order[i]) > 0);
    }
    assert forall|p: Passage| #[trigger] valid_candidate(size, p) implies order.contains(p) by {
        assert(all.to_multiset().count(p) > 0);
    }
}

/// For every list of inner faces there is a component tracker that mirrors
/// the passages opened by consuming the list.
pub proof fn lemma_tracker_exists(size: Dims3D, walls: Seq<Passage>) -> (sets: Seq<Set<int>>)
    requires
        size.is_size(),
        forall|i: int| 0 <= i < walls.len() ==> valid_candidate(size, #[trigger] walls[i]),
    ensures
        tracks(size, sets, carved(walls)),
    decreases walls.len(),
{
    if walls.len() == 0 {
        let sets = Seq::new(size.volume() as nat, |k: int| set![k]);
        assert(size.volume() >= 0) by (nonlinear_arith)
            requires
                size.0 >= 1,
                size.1 >= 1,
                size.2 >= 1,
        ;
        lemma_tracks_start(size, sets);
        sets
    } else {
        let rest = walls.skip(1);
        assert(forall|i: int| 0 <= i < rest.len() ==> rest[i] == walls[i + 1]);
        let sets = lemma_tracker_exists(size, rest);
        let e = walls[0];
        let open = carved(rest);
        lemma_number_bound(size, e.0);
        lemma_number_bound(size, far_end(e));
        let na = e.0.number(size);
        let nb = far_end(e).number(size);
        assert(placed(sets, na) && placed(sets, nb));
        let k0 = choose|k: int| holds(sets, k, na);
        let k1 = choose|k: int| holds(sets, k, nb);
        if k0 == k1 {
            lemma_tracks_reject(size, sets, open, e, k0);
            sets
        } else {
            lemma_tracks_accept(size, sets, open, e, k0, k1);
            merged(sets, k0, k1)
        }
    }
}

/// Consuming a list that holds nothing but inner faces of the grid, and all
/// of them, leaves a spanning tree: all cells are joined, and the open
/// passages number one less than the cells.  Just as many progress values are
/// reported.
pub proof fn lemma_spanning_tree(size: Dims3D, walls: Seq<Passage>)
    requires
        size.is_size(),
        forall|i: int| 0 <= i < walls.len() ==> valid_candidate(size, #[trigger] walls[i]),
        covers_grid(size, walls),
    ensures
        forall|a: Dims3D, b: Dims3D|
            a.within(size) && b.within(size) ==> #[trigger] joined(carved(walls), a, b),
        carved(walls).finite(),
        carved(walls).len() == size.volume() - 1,
        reports(walls).len() == size.volume() - 1,
{
    let sets = lemma_tracker_exists(size, walls);
    lemma_carved_connects(size, walls);
    lemma_tracks_spanning(size, sets, carved(walls));
    lemma_carved_basic(walls);
}

/// Whatever the shuffle of the candidate walls, consuming it leaves a
/// spanning tree of the grid: a walk through open passages leads from every
/// cell to every other, and the open passages number one less than the cells.
pub proof fn lemma_shuffle_spans(size: Dims3D, order: Seq<Passage>)
    requires
        size.is_size(),
        is_shuffle(size, order),
    ensures
        forall|a: Dims3D, b: Dims3D|
            a.within(size) && b.within(size) ==> #[trigger] joined(carved(order), a, b),
        carved(order).finite(),
        carved(order).len() == size.volume() - 1,
{
    lemma_shuffle_covers(size, order);
    lemma_spanning_tree(size, order);
}

/// Whatever the shuffle of the candidate walls, a run that consumes it to
/// the end reports progress once for each cell but one.  The first values of
/// the reports start at 1 or above, grow strictly and stay within the second
/// value, which is the number of candidate walls of the grid.
pub proof fn lemma_shuffle_reports(size: Dims3D, order: Seq<Passage>)
    requires
        size.is_size(),
        is_shuffle(size, order),
    ensures
        reports(order).len() == size.volume() - 1,
        order.len() == wall_count(size),
        forall|i: int| 0 <= i < reports(order).len() ==> 1 <= #[trigger] reports(order)[i]
            <= wall_count(size),
        forall|i: int, j: int|
            0 <= i < j < reports(order).len() ==> reports(order)[i] < reports(order)[j],
{
    lemma_shuffle_covers(size, order);
    lemma_spanning_tree(size, order);
    lemma_reports_grow(order);
}

/// The opened passages hold no cycle: each of them is the only connection
/// between its two cells, which are not joined once it is closed again.
pub proof fn lemma_carved_forest(walls: Seq<Passage>, e: Passage)
    requires
        carved(walls).contains(e),
    ensures
        !joined(carved(walls).remove(e), e.0, far_end(e)),
    decreases walls.len(),
{
    let rest = walls.skip(1);
    let earlier = carved(rest);
    let front = walls[0];
    if !opens(walls) {
        lemma_carved_forest(rest, e);
    } else if !earlier.contains(e) {
        // `e` is the passage opened last: without it the cells are as they
        // were before, not joined.
        assert(carved(walls).remove(e) =~= earlier);
    } else {
        lemma_carved_forest(rest, e);
        let without = earlier.remove(e);
        if earlier.contains(front) {
            lemma_joined_link(earlier, front.0, far_end(front));
        }
        assert(carved(walls).remove(e) =~= without.insert(front));
        if joined(without.insert(front), e.0, far_end(e)) {
            // A walk around `e` would run through the passage opened last,
            // and with `e` it would have joined the cells of that passage
            // before it was opened.
            lemma_joined_split(without, front, e.0, far_end(e));
            assert(crosses(earlier, e.0, far_end(e)));
            lemma_joined_link(earlier, e.0, far_end(e));
            lemma_joined_sym(earlier, e.0, far_end(e));
            if joined(without, e.0, front.0) && joined(without, far_end(front), far_end(e)) {
                lemma_joined_mono(without, earlier, e.0, front.0);
                lemma_joined_mono(without, earlier, far_end(front), far_end(e));
                lemma_joined_sym(earlier, e.0, front.0);
                lemma_joined_sym(earlier, far_end(front), far_end(e));
                lemma_joined_trans(earlier, front.0, e.0, far_end(e));
                lemma_joined_trans(earlier, front.0, far_end(e), far_end(front));
            } else {
                lemma_joined_mono(without, earlier, e.0, far_end(front));
                lemma_joined_mono(without, earlier, front.0, far_end(e));
                lemma_joined_sym(earlier, e.0, far_end(front));
                lemma_joined_trans(earlier, front.0, far_end(e), e.0);
                lemma_joined_trans(earlier, front.0, e.0, far_end(front));
            }
        }
    }
}

} // verus!
