//! What holds of the operations of a disjoint-set store taken together, stated
//! over the forests that the operations' contracts speak of.

use crate::forest::Forest;
use vstd::prelude::*;

verus! {

/// Lookups are stable: after a lookup of `x`, every element `z`, and `x`
/// itself, has the representative it had before, so a lookup repeated without
/// a union in between returns the same value.
pub proof fn find_is_stable(f: Forest, x: int, z: int)
    requires
        f.wf(),
        f.has(x),
        f.has(z),
    ensures
        f.compress(x).wf(),
        f.compress(x).root(x) == f.root(x),
        f.compress(x).root(z) == f.root(z),
{
    f.lemma_compress_wf(x);
    f.lemma_compress_root(x, x);
    f.lemma_compress_root(x, z);
}

/// Once a path is flat, a second lookup of the same element has nothing left
/// to rewrite.
pub proof fn find_twice_changes_nothing(f: Forest, x: int)
    requires
        f.wf(),
        f.has(x),
    ensures
        f.compress(x).compress(x) == f.compress(x),
{
    let g = f.compress(x);
    let r = f.root(x);
    f.lemma_compress_wf(x);
    f.lemma_compress_root(x, x);
    f.lemma_root(x);
    f.lemma_path_end(x);
    assert(g.parents[x] == r);
    assert(g.parents[r] == r);
    assert forall|j: int| 0 <= j < g.parents.len() && g.on_path(x, j) implies g.parents[j]
        == r by {
        if j != x {
            assert(g.on_path(r, j));
        }
    }
    assert(g.compress(x).parents =~= g.parents);
}

/// After a union of `x` and `y`, both have the representative that the union
/// returned.
pub proof fn union_joins(f: Forest, x: int, y: int)
    requires
        f.wf(),
        f.has(x),
        f.has(y),
    ensures
        f.union(x, y).wf(),
        f.union(x, y).root(x) == f.union_rep(x, y),
        f.union(x, y).root(y) == f.union_rep(x, y),
{
    f.lemma_union_wf(x, y);
    f.lemma_union_root(x, y, x);
    f.lemma_union_root(x, y, y);
}

/// A union of `x` and `y` leaves alone what it does not touch: an element in
/// neither of the two sets keeps its representative, and two such elements
/// are in one set afterwards exactly if they were before.
pub proof fn union_isolates(f: Forest, x: int, y: int, z: int, w: int)
    requires
        f.wf(),
        f.has(x),
        f.has(y),
        f.has(z),
        f.has(w),
        f.root(z) != f.root(x),
        f.root(z) != f.root(y),
        f.root(w) != f.root(x),
        f.root(w) != f.root(y),
    ensures
        f.union(x, y).root(z) == f.root(z),
        f.union(x, y).root(w) == f.root(w),
        (f.union(x, y).root(z) == f.union(x, y).root(w)) == (f.root(z) == f.root(w)),
{
    f.lemma_union_root(x, y, z);
    f.lemma_union_root(x, y, w);
}

/// A union of `x` and `y` merges their two sets and nothing else: two
/// elements are in one set afterwards exactly if they were before, or if each
/// was in the set of `x` or in that of `y`.
pub proof fn union_merges_exactly(f: Forest, x: int, y: int, z: int, w: int)
    requires
        f.wf(),
        f.has(x),
        f.has(y),
        f.has(z),
        f.has(w),
    ensures
        (f.union(x, y).root(z) == f.union(x, y).root(w)) == (f.root(z) == f.root(w) || ((f.root(z)
            == f.root(x) || f.root(z) == f.root(y)) && (f.root(w) == f.root(x) || f.root(w)
            == f.root(y)))),
{
    f.lemma_union_root(x, y, z);
    f.lemma_union_root(x, y, w);
}

/// A union repeated at once returns the same representative and changes the
/// representative of no element.
pub proof fn union_is_idempotent(f: Forest, x: int, y: int, z: int)
    requires
        f.wf(),
        f.has(x),
        f.has(y),
        f.has(z),
    ensures
        f.union(x, y).union_rep(x, y) == f.union_rep(x, y),
        f.union(x, y).union(x, y).root(z) == f.union(x, y).root(z),
{
    let g = f.union(x, y);
    f.lemma_union_wf(x, y);
    f.lemma_union_root(x, y, x);
    f.lemma_union_root(x, y, y);
    f.lemma_union_root(x, y, z);
    g.lemma_union_root(x, y, z);
}

/// Growth keeps history: a new element changes the representative of no
/// element that was there, and is its own representative.
pub proof fn growth_keeps_roots(f: Forest, z: int)
    requires
        f.wf(),
    ensures
        f.grow().wf(),
        f.grow().len() == f.len() + 1,
        f.has(z) ==> f.grow().root(z) == f.root(z),
        f.grow().root(f.len() as int) == f.len(),
{
    f.lemma_grow_wf();
    if f.has(z) {
        f.lemma_grow_root(z);
    }
    f.lemma_grow_root(f.len() as int);
}

/// The rank of a root bounds the height of its tree: no element is more
/// links away from its root than the root's rank, and no rank reaches the
/// number of elements.
pub proof fn rank_bounds_height(f: Forest, i: int)
    requires
        f.wf(),
        f.has(i),
    ensures
        f.depth(i) <= f.ranks[f.root(i)],
        f.ranks[f.root(i)] < f.len(),
{
    f.lemma_root(i);
    f.lemma_depth(i);
}

/// A lookup leaves every element in its role, root or not, and with its
/// rank; afterwards the element looked up is at most one link from its root.
pub proof fn find_keeps_roles(f: Forest, x: int, i: int)
    requires
        f.wf(),
        f.has(x),
        f.has(i),
    ensures
        (f.compress(x).parents[i] == i) == (f.parents[i] == i),
        f.compress(x).ranks[i] == f.ranks[i],
        f.compress(x).parents[x] == f.root(x),
        f.compress(x).depth(x) <= 1,
{
    let g = f.compress(x);
    f.lemma_compress_wf(x);
    f.lemma_root(x);
    f.lemma_root(i);
    if f.on_path(x, i) {
        f.lemma_on_path(x, i);
    }
    f.lemma_path_end(x);
    if g.parents[x] != x {
        assert(g.depth(x) == 1 + g.depth(f.root(x)));
    }
}

/// A union turns at most one root into a child, the one of the two
/// representatives that it does not return, and never a child into a root.
pub proof fn union_retires_one_root(f: Forest, x: int, y: int, i: int)
    requires
        f.wf(),
        f.has(x),
        f.has(y),
        f.has(i),
    ensures
        (f.union(x, y).parents[i] == i) == (f.parents[i] == i && (i == f.union_rep(x, y) || (i
            != f.root(x) && i != f.root(y)))),
{
    f.lemma_union_roots_kept(x, y);
    find_keeps_roles(f, x, i);
    find_keeps_roles(f.compress(x), y, i);
}

/// Ranks never fall, and a union raises one only where it joins two roots of
/// equal rank: then the rank of the representative it returns grows by one.
pub proof fn union_raises_rank_on_ties_only(f: Forest, x: int, y: int, i: int)
    requires
        f.wf(),
        f.has(x),
        f.has(y),
        f.has(i),
    ensures
        f.union(x, y).ranks[i] == if i == f.union_rep(x, y) && f.root(x) != f.root(y)
            && f.ranks[f.root(x)] == f.ranks[f.root(y)] {
            f.ranks[i] + 1
        } else {
            f.ranks[i]
        },
{
    f.lemma_union_roots_kept(x, y);
}

} // verus!
