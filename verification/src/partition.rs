//! The component tracker: a partition of cell numbers into disjoint sets.
//!
//! Cells are tracked by number.  The sets are kept in a list whose order
//! carries no meaning; the set that holds a given cell is found by a parallel
//! search over the list.

use vstd::prelude::*;
use std::collections::HashSet;
use rayon::iter::IndexedParallelIterator;
use rayon::iter::IntoParallelRefIterator;

verus! {

/// Whether the set at index `k` of `sets` holds cell `i`.
pub open spec fn holds(sets: Seq<Set<int>>, k: int, i: int) -> bool {
    0 <= k < sets.len() && sets[k].contains(i)
}

/// Whether some set of `sets` holds cell `i`.
pub open spec fn placed(sets: Seq<Set<int>>, i: int) -> bool {
    exists|k: int| holds(sets, k, i)
}

/// Whether one set of `sets` holds both `i` and `j`.
pub open spec fn same(sets: Seq<Set<int>>, i: int, j: int) -> bool {
    exists|k: int| #[trigger] holds(sets, k, i) && holds(sets, k, j)
}

/// Whether the set at index `k` of `sets` has a member.
pub open spec fn inhabited(sets: Seq<Set<int>>, k: int) -> bool {
    exists|i: int| holds(sets, k, i)
}

/// Whether no cell is in two sets of `sets`.
pub open spec fn disjoint(sets: Seq<Set<int>>) -> bool {
    forall|ka: int, kb: int, i: int| holds(sets, ka, i) && holds(sets, kb, i) ==> ka == kb
}

/// Whether `sets` is a partition of the cells `0 .. n`: every cell below `n`
/// is in exactly one set, nothing else is in any set, and no set is empty.
pub open spec fn is_partition(sets: Seq<Set<int>>, n: int) -> bool {
    &&& forall|k: int, i: int| holds(sets, k, i) ==> 0 <= i < n
    &&& forall|i: int| 0 <= i < n ==> #[trigger] placed(sets, i)
    &&& disjoint(sets)
    &&& forall|k: int| 0 <= k < sets.len() ==> #[trigger] inhabited(sets, k)
}

/// What a list of sets looks like after set `k0` was taken out, with the last
/// set moved into its place, and joined to the set that was at `k1`.
pub open spec fn merged(sets: Seq<Set<int>>, k0: int, k1: int) -> Seq<Set<int>> {
    let rest = sets.update(k0, sets.last()).drop_last();
    let at = if k1 == sets.len() - 1 {
        k0
    } else {
        k1
    };
    rest.update(at, rest[at].union(sets[k0]))
}

/// Whether cell `i` is in one of the two sets of `sets` at indices `k0` and `k1`.
pub open spec fn in_either(sets: Seq<Set<int>>, k0: int, k1: int, i: int) -> bool {
    holds(sets, k0, i) || holds(sets, k1, i)
}

/// Merging two sets of a partition gives a partition with one set fewer, in
/// which two cells share a set exactly if they did before or both come from
/// the two merged sets.
pub proof fn lemma_merge_partition(before: Seq<Set<int>>, k0: int, k1: int, n: int)
    requires
        is_partition(before, n),
        0 <= k0 < before.len(),
        0 <= k1 < before.len(),
        k0 != k1,
    ensures
        is_partition(merged(before, k0, k1), n),
        merged(before, k0, k1).len() == before.len() - 1,
        forall|i: int, j: int|
            same(merged(before, k0, k1), i, j) <==> same(before, i, j) || (in_either(
                before,
                k0,
                k1,
                i,
            ) && in_either(before, k0, k1, j)),
{
    let after = merged(before, k0, k1);
    let last = before.len() - 1;
    let at = if k1 == last {
        k0
    } else {
        k1
    };
    // Where the set now at index `k` stood before the merge.
    let src = |k: int|
        if k == k0 && k0 != last {
            last
        } else {
            k
        };
    // Where the set that stood at index `kb` has gone.
    let dst = |kb: int|
        if kb == k0 || kb == k1 {
            at
        } else if kb == last {
            k0
        } else {
            kb
        };
    assert(after[at] == before[k1].union(before[k0]));
    assert(forall|k: int|
        0 <= k < after.len() && k != at ==> #[trigger] after[k] == before[src(k)] && src(k) != k0
            && src(k) != k1);
    assert(forall|kb: int, i: int| #[trigger] holds(before, kb, i) ==> holds(after, dst(kb), i));
    assert(forall|k: int, i: int| #[trigger]
        holds(after, k, i) ==> if k == at {
            in_either(before, k0, k1, i)
        } else {
            holds(before, src(k), i)
        });
    assert forall|i: int| 0 <= i < n implies #[trigger] placed(after, i) by {
        assert(placed(before, i));
    }
    assert forall|k: int| 0 <= k < after.len() implies #[trigger] inhabited(after, k) by {
        assert(inhabited(before, if k == at {
            k1
        } else {
            src(k)
        }));
    }
}

/// Whether `set` holds `key`.
pub fn set_contains(set: &HashSet<usize>, key: usize) -> (found: bool)
    ensures
        found == set@.contains(key),
{
    set.contains(&key)
}

/// Adds every member of `other` to `target`.
pub fn absorb(target: &mut HashSet<usize>, other: &HashSet<usize>)
    ensures
        final(target)@ == old(target)@.union(other@),
{
    let ghost before = target@;
    for key in it: other.iter()
        invariant
            it.seq().unref().to_set() == other@,
            before.subset_of(target@),
            target@.subset_of(before.union(other@)),
            forall|i: int| 0 <= i < it.index() ==> target@.contains(*#[trigger] it.seq()[i]),
    {
        target.insert(*key);
    }
}

/// Index of some set of `sets` that holds `key`, searched in parallel.
///
/// Calls rayon's `position_any` on the parallel iterator over `sets`.  The
/// contract claims what rayon documents: a returned index is in range and its
/// set matches the predicate (not necessarily the first such index), and
/// `None` comes back only when no set matches.  rayon runs the search on its
/// global pool of worker threads and panics if the pool cannot be set up.
#[verifier::external_body]
fn position_any(sets: &Vec<HashSet<usize>>, key: usize) -> (found: Option<usize>)
    ensures
        match found {
            Some(k) => k < sets.len() && sets[k as int]@.contains(key),
            None => forall|k: int| 0 <= k < sets.len() ==> !sets[k]@.contains(key),
        },
{
    sets.par_iter().position_any(|set| set_contains(set, key))
}

/// The numbers that a set of machine numbers holds.
pub open spec fn numbers(set: Set<usize>) -> Set<int> {
    Set::new(|i: int| 0 <= i <= usize::MAX && set.contains(i as usize))
}

/// A list of sets of cell numbers.
pub struct Partition {
    sets: Vec<HashSet<usize>>,
}

impl View for Partition {
    type V = Seq<Set<int>>;

    closed spec fn view(&self) -> Seq<Set<int>> {
        Seq::new(self.sets.len() as nat, |k: int| numbers(self.sets[k]@))
    }
}

impl Partition {
    /// The partition of `0 .. n` into singletons: set `k` holds just `k`.
    pub fn singletons(n: usize) -> (p: Partition)
        ensures
            p@.len() == n,
            forall|k: int| 0 <= k < n ==> #[trigger] p@[k] == set![k],
            is_partition(p@, n as int),
    {
        let mut sets: Vec<HashSet<usize>> = Vec::with_capacity(n);
        let mut i: usize = 0;
        while i < n
            invariant
                i <= n,
                sets.len() == i,
                forall|k: int| 0 <= k < i ==> numbers(#[trigger] sets[k]@) == set![k],
            decreases n - i,
        {
            let mut single: HashSet<usize> = HashSet::new();
            single.insert(i);
            sets.push(single);
            i += 1;
        }
        let p = Partition { sets };
        proof {
            lemma_singletons(p@, n as int);
        }
        p
    }

    /// Number of sets.
    pub fn len(&self) -> (n: usize)
        ensures
            n == self@.len(),
    {
        self.sets.len()
    }

    /// Index of the set that holds `key`.
    pub fn find(&self, key: usize) -> (k: usize)
        requires
            placed(self@, key as int),
        ensures
            holds(self@, k as int, key as int),
    {
        let found = position_any(&self.sets, key);
        proof {
            // Some set holds the key, so the search cannot have come back empty.
            let k = choose|k: int| holds(self@, k, key as int);
            assert(self.sets[k]@.contains(key));
        }
        found.unwrap()
    }

    /// Whether the set at index `k` holds `key`.
    pub fn set_holds(&self, k: usize, key: usize) -> (found: bool)
        requires
            k < self@.len(),
        ensures
            found == holds(self@, k as int, key as int),
    {
        set_contains(&self.sets[k], key)
    }

    /// Puts the cells `a` and `b` into one set, unless they share a set
    /// already, and tells whether two sets had to be merged for it.
    pub fn join(&mut self, a: usize, b: usize) -> (joined: bool)
        requires
            placed(old(self)@, a as int),
            placed(old(self)@, b as int),
            disjoint(old(self)@),
        ensures
            joined == !same(old(self)@, a as int, b as int),
            !joined ==> final(self)@ == old(self)@,
            joined ==> exists|k0: int, k1: int|
                holds(old(self)@, k0, a as int) && holds(old(self)@, k1, b as int) && #[trigger] merged(
                    old(self)@,
                    k0,
                    k1,
                ) == final(self)@,
    {
        let set0 = self.find(a);
        if self.set_holds(set0, b) {
            return false;
        }
        let set1 = self.find(b);
        self.merge(set0, set1);
        true
    }

    /// Joins the sets at indices `k0` and `k1` into one.  The set at `k0`
    /// leaves the list, the last set takes its place, and the members of the
    /// removed set are added to the set that was at `k1`.
    pub fn merge(&mut self, k0: usize, k1: usize)
        requires
            k0 < old(self)@.len(),
            k1 < old(self)@.len(),
            k0 != k1,
        ensures
            final(self)@ == merged(old(self)@, k0 as int, k1 as int),
    {
        let last = self.sets.len() - 1;
        let set0 = self.sets.swap_remove(k0);
        let at = if k1 == last {
            k0
        } else {
            k1
        };
        let ghost target = self.sets[at as int]@;
        absorb(&mut self.sets[at], &set0);
        proof {
            // The numbers of a union are the union of the numbers.
            assert(numbers(target.union(set0@)) =~= numbers(target).union(numbers(set0@)));
        }
    }
}

/// The list whose set `k` holds just `k`, for each `k` below `n`, is a
/// partition of `0 .. n` in which no two cells share a set.
pub proof fn lemma_singletons(sets: Seq<Set<int>>, n: int)
    requires
        0 <= n,
        sets.len() == n,
        forall|k: int| 0 <= k < n ==> #[trigger] sets[k] == set![k],
    ensures
        is_partition(sets, n),
        forall|i: int, j: int| same(sets, i, j) <==> i == j && 0 <= i < n,
{
    assert forall|i: int| 0 <= i < n implies #[trigger] placed(sets, i) by {
        assert(holds(sets, i, i));
    }
    assert forall|k: int| 0 <= k < sets.len() implies #[trigger] inhabited(sets, k) by {
        assert(holds(sets, k, k));
    }
    assert(forall|k: int, i: int| holds(sets, k, i) ==> i == k);
    assert forall|i: int, j: int| i == j && 0 <= i < n implies same(sets, i, j) by {
        assert(holds(sets, i, i));
    }
}

} // verus!
