//! The model of a disjoint-set store: a forest given by parent links, with a
//! rank on every node.

use vstd::prelude::*;

verus! {

/// Parent links and ranks, indexed by element id.
///
/// An element whose parent is itself is a root. The rank of a root bounds the
/// height of its tree; the rank of any other element is whatever it was when
/// the element stopped being a root.
#[verifier::ext_equal]
pub struct Forest {
    pub parents: Seq<int>,
    pub ranks: Seq<nat>,
}

impl Forest {
    /// The number of elements.
    pub open spec fn len(self) -> nat {
        self.parents.len()
    }

    /// Whether `i` is the id of an element.
    pub open spec fn has(self, i: int) -> bool {
        0 <= i < self.parents.len()
    }

    /// What element `i` adds to the rank budget: its rank plus one while it is
    /// a root, nothing afterwards.
    pub open spec fn credit(self, i: int) -> nat {
        if self.parents[i] == i {
            self.ranks[i] + 1
        } else {
            0
        }
    }

    /// The sum of `credit` over the first `n` elements.
    pub open spec fn credits(self, n: nat) -> nat
        decreases n,
    {
        if n == 0 {
            0
        } else {
            self.credits((n - 1) as nat) + self.credit(n - 1)
        }
    }

    /// The invariant of the structure.
    ///
    /// Every parent is an element; ranks grow strictly along parent links, so
    /// the links form a forest; and the roots' ranks, each counted with one
    /// more, sum to at most the number of elements, so no rank can reach the
    /// number of elements.
    pub open spec fn wf(self) -> bool {
        &&& self.ranks.len() == self.parents.len()
        &&& forall|i: int|
            0 <= i < self.parents.len() ==> 0 <= #[trigger] self.parents[i] < self.parents.len()
        &&& forall|i: int|
            0 <= i < self.parents.len() ==> #[trigger] self.ranks[i] < self.parents.len()
        &&& forall|i: int|
            0 <= i < self.parents.len() && #[trigger] self.parents[i] != i ==> self.ranks[i]
                < self.ranks[self.parents[i]]
        &&& self.credits(self.parents.len()) <= self.parents.len()
    }

    /// The representative of the set that holds `i`: the root that the parent
    /// links lead to from `i`.
    pub open spec fn root(self, i: int) -> int
        decreases self.parents.len() - self.ranks[i],
        when self.wf() && self.has(i)
    {
        if self.parents[i] == i {
            i
        } else {
            self.root(self.parents[i])
        }
    }

    /// Whether `j` lies on the chain of parent links that starts at `x` and
    /// ends at the root of `x`, both ends included.
    pub open spec fn on_path(self, x: int, j: int) -> bool
        decreases self.parents.len() - self.ranks[x],
        when self.wf() && self.has(x)
    {
        j == x || (self.parents[x] != x && self.on_path(self.parents[x], j))
    }

    /// The number of parent links from `i` to its root.
    pub open spec fn depth(self, i: int) -> nat
        decreases self.parents.len() - self.ranks[i],
        when self.wf() && self.has(i)
    {
        if self.parents[i] == i {
            0
        } else {
            1 + self.depth(self.parents[i])
        }
    }

    /// `n` elements, each alone in its set, with rank 0.
    pub open spec fn singletons(n: nat) -> Forest {
        Forest { parents: Seq::new(n, |i: int| i), ranks: Seq::new(n, |i: int| 0nat) }
    }

    /// The forest with one more element, alone in its set, with rank 0.
    pub open spec fn grow(self) -> Forest {
        Forest { parents: self.parents.push(self.parents.len() as int), ranks: self.ranks.push(0) }
    }

    /// The forest after a lookup of `x`: every element on the path from `x`
    /// hangs directly under the root of `x`; nothing else changes.
    pub open spec fn compress(self, x: int) -> Forest {
        Forest {
            parents: Seq::new(
                self.parents.len(),
                |j: int|
                    if self.on_path(x, j) {
                        self.root(x)
                    } else {
                        self.parents[j]
                    },
            ),
            ranks: self.ranks,
        }
    }

    /// Which of the two roots `a` and `b` stands for both sets once they are
    /// joined: the one of higher rank, and `b` where the ranks are equal.
    pub open spec fn link_rep(self, a: int, b: int) -> int {
        if a == b {
            a
        } else if self.ranks[a] > self.ranks[b] {
            a
        } else {
            b
        }
    }

    /// The forest after the trees of the roots `a` and `b` are joined: the
    /// root of lower rank hangs under the other; on equal ranks `a` hangs
    /// under `b` and the rank of `b` grows by one.
    pub open spec fn link(self, a: int, b: int) -> Forest {
        if a == b {
            self
        } else if self.ranks[a] < self.ranks[b] {
            Forest { parents: self.parents.update(a, b), ranks: self.ranks }
        } else if self.ranks[a] > self.ranks[b] {
            Forest { parents: self.parents.update(b, a), ranks: self.ranks }
        } else {
            Forest {
                parents: self.parents.update(a, b),
                ranks: self.ranks.update(b, self.ranks[b] + 1),
            }
        }
    }

    /// The representative that a union of the sets of `x` and `y` returns.
    pub open spec fn union_rep(self, x: int, y: int) -> int {
        self.link_rep(self.root(x), self.root(y))
    }

    /// The forest after a union of the sets of `x` and `y`: both are looked
    /// up, which compresses their paths, and then their roots are joined.
    pub open spec fn union(self, x: int, y: int) -> Forest {
        self.compress(x).compress(y).link(self.root(x), self.root(y))
    }

    /// The root of an element is an element and a root, and no rank on the way
    /// to it is higher than its own.
    pub proof fn lemma_root(self, i: int)
        requires
            self.wf(),
            self.has(i),
        ensures
            self.has(self.root(i)),
            self.parents[self.root(i)] == self.root(i),
            self.root(self.root(i)) == self.root(i),
            self.ranks[i] <= self.ranks[self.root(i)],
            self.parents[i] != i ==> self.ranks[i] < self.ranks[self.root(i)],
            self.root(self.parents[i]) == self.root(i),
        decreases self.parents.len() - self.ranks[i],
    {
        if self.parents[i] != i {
            self.lemma_root(self.parents[i]);
        }
    }

    /// What lies on the path from `x` is an element of the same set, of rank
    /// no lower than that of `x`, and its parent lies on the path too.
    pub proof fn lemma_on_path(self, x: int, j: int)
        requires
            self.wf(),
            self.has(x),
            self.on_path(x, j),
        ensures
            self.has(j),
            self.root(j) == self.root(x),
            self.ranks[x] <= self.ranks[j],
            self.on_path(x, self.parents[j]),
        decreases self.parents.len() - self.ranks[x],
    {
        if j != x {
            self.lemma_on_path(self.parents[x], j);
        } else if self.parents[x] != x {
            assert(self.on_path(self.parents[x], self.parents[x]));
        }
    }

    /// Two forests whose elements below `n` have the same credit, except
    /// perhaps element `a`, differ in their sums by what `a` differs.
    pub proof fn lemma_credits_change(self, other: Forest, n: nat, a: int)
        requires
            forall|i: int| 0 <= i < n && i != a ==> self.credit(i) == other.credit(i),
        ensures
            0 <= a < n ==> other.credits(n) - other.credit(a) == self.credits(n) - self.credit(a),
            !(0 <= a < n) ==> other.credits(n) == self.credits(n),
        decreases n,
    {
        if n > 0 {
            self.lemma_credits_change(other, (n - 1) as nat, a);
        }
    }

    /// The credit of an element below `n` is part of the sum over the first
    /// `n` elements.
    pub proof fn lemma_credit_bound(self, n: nat, a: int)
        requires
            0 <= a < n,
        ensures
            self.credit(a) <= self.credits(n),
        decreases n,
    {
        if a < n - 1 {
            self.lemma_credit_bound((n - 1) as nat, a);
        }
    }

    /// The credits of two different elements below `n` fit together into the
    /// sum over the first `n` elements.
    pub proof fn lemma_credits_bound(self, n: nat, a: int, b: int)
        requires
            0 <= a < n,
            0 <= b < n,
            a != b,
        ensures
            self.credit(a) + self.credit(b) <= self.credits(n),
        decreases n,
    {
        if a < n - 1 && b < n - 1 {
            self.lemma_credits_bound((n - 1) as nat, a, b);
        } else if a < n - 1 {
            self.lemma_credit_bound((n - 1) as nat, a);
        } else {
            self.lemma_credit_bound((n - 1) as nat, b);
        }
    }

    /// A lookup keeps the invariant.
    pub proof fn lemma_compress_wf(self, x: int)
        requires
            self.wf(),
            self.has(x),
        ensures
            self.compress(x).wf(),
    {
        let g = self.compress(x);
        self.lemma_root(x);
        assert forall|i: int| 0 <= i < g.parents.len() implies (0 <= #[trigger] g.parents[i]
            < g.parents.len()) && (g.parents[i] != i ==> g.ranks[i] < g.ranks[g.parents[i]])
            && g.credit(i) == self.credit(i) by {
            self.lemma_root(i);
            if self.on_path(x, i) {
                self.lemma_on_path(x, i);
            }
        }
        self.lemma_credits_change(g, self.parents.len(), -1);
    }

    /// A lookup changes the root of no element.
    pub proof fn lemma_compress_root(self, x: int, z: int)
        requires
            self.wf(),
            self.has(x),
            self.has(z),
        ensures
            self.compress(x).root(z) == self.root(z),
        decreases self.parents.len() - self.ranks[z],
    {
        let g = self.compress(x);
        self.lemma_compress_wf(x);
        self.lemma_root(x);
        self.lemma_root(z);
        if self.on_path(x, z) {
            self.lemma_on_path(x, z);
            if g.parents[z] != z {
                assert(g.root(z) == g.root(self.root(x)));
                assert(self.on_path(x, self.root(x))) by {
                    self.lemma_path_end(x);
                }
            }
        } else if self.parents[z] != z {
            self.lemma_compress_root(x, self.parents[z]);
        }
    }

    /// The root of `x` lies on the path from `x`.
    pub proof fn lemma_path_end(self, x: int)
        requires
            self.wf(),
            self.has(x),
        ensures
            self.on_path(x, self.root(x)),
        decreases self.parents.len() - self.ranks[x],
    {
        if self.parents[x] != x {
            self.lemma_path_end(self.parents[x]);
        }
    }

    /// Joining the trees of two roots keeps the invariant.
    pub proof fn lemma_link_wf(self, a: int, b: int)
        requires
            self.wf(),
            self.has(a),
            self.has(b),
            self.parents[a] == a,
            self.parents[b] == b,
        ensures
            self.link(a, b).wf(),
    {
        let g = self.link(a, b);
        let n = self.parents.len();
        if a != b {
            self.lemma_credits_bound(n, a, b);
            if self.ranks[a] == self.ranks[b] {
                let mid = Forest { parents: self.parents.update(a, b), ranks: self.ranks };
                self.lemma_credits_change(mid, n, a);
                mid.lemma_credits_change(g, n, b);
            } else if self.ranks[a] < self.ranks[b] {
                self.lemma_credits_change(g, n, a);
            } else {
                self.lemma_credits_change(g, n, b);
            }
        }
    }

    /// Joining the trees of two roots gives the elements of both trees the
    /// joint representative and leaves every other element its root.
    pub proof fn lemma_link_root(self, a: int, b: int, z: int)
        requires
            self.wf(),
            self.has(a),
            self.has(b),
            self.has(z),
            self.parents[a] == a,
            self.parents[b] == b,
        ensures
            self.link(a, b).root(z) == if self.root(z) == a || self.root(z) == b {
                self.link_rep(a, b)
            } else {
                self.root(z)
            },
        decreases self.parents.len() - self.ranks[z],
    {
        let g = self.link(a, b);
        let w = self.link_rep(a, b);
        self.lemma_link_wf(a, b);
        self.lemma_root(z);
        if self.parents[z] != z {
            self.lemma_link_root(a, b, self.parents[z]);
        } else if g.parents[z] != z {
            assert(g.root(z) == g.root(w));
        }
    }

    /// One more element keeps the invariant.
    pub proof fn lemma_grow_wf(self)
        requires
            self.wf(),
        ensures
            self.grow().wf(),
    {
        let g = self.grow();
        self.lemma_credits_change(g, self.parents.len(), -1);
    }

    /// One more element changes the root of no element that was there, and
    /// the new element is its own root.
    pub proof fn lemma_grow_root(self, z: int)
        requires
            self.wf(),
            0 <= z <= self.parents.len(),
        ensures
            self.grow().root(z) == if z < self.parents.len() {
                self.root(z)
            } else {
                z
            },
        decreases self.parents.len() - self.ranks[z],
    {
        self.lemma_grow_wf();
        if z < self.parents.len() && self.parents[z] != z {
            self.lemma_grow_root(self.parents[z]);
        }
    }

    /// Singletons satisfy the invariant, and each is its own root.
    pub proof fn lemma_singletons(n: nat)
        ensures
            Forest::singletons(n).wf(),
            forall|z: int| 0 <= z < n ==> #[trigger] Forest::singletons(n).root(z) == z,
    {
        Forest::lemma_singletons_credits(n, n);
    }

    /// Among singletons, the first `k` elements have `k` credits.
    pub proof fn lemma_singletons_credits(n: nat, k: nat)
        requires
            k <= n,
        ensures
            Forest::singletons(n).credits(k) == k,
        decreases k,
    {
        if k > 0 {
            Forest::lemma_singletons_credits(n, (k - 1) as nat);
        }
    }

    /// After the two lookups of a union, the two representatives are still
    /// roots, and the forest satisfies the invariant with the ranks it had.
    pub proof fn lemma_union_roots_kept(self, x: int, y: int)
        requires
            self.wf(),
            self.has(x),
            self.has(y),
        ensures
            self.compress(x).wf(),
            self.compress(x).root(y) == self.root(y),
            self.compress(x).compress(y).wf(),
            self.compress(x).compress(y).ranks == self.ranks,
            self.has(self.root(x)),
            self.has(self.root(y)),
            self.compress(x).compress(y).parents[self.root(x)] == self.root(x),
            self.compress(x).compress(y).parents[self.root(y)] == self.root(y),
    {
        let a = self.root(x);
        let b = self.root(y);
        let mid = self.compress(x);
        let g = mid.compress(y);
        self.lemma_root(x);
        self.lemma_root(y);
        self.lemma_compress_wf(x);
        self.lemma_compress_root(x, y);
        self.lemma_compress_root(x, a);
        self.lemma_compress_root(x, b);
        mid.lemma_compress_wf(y);
        mid.lemma_compress_root(y, a);
        mid.lemma_compress_root(y, b);
        g.lemma_root(a);
        g.lemma_root(b);
    }

    /// A union keeps the invariant and the number of elements.
    pub proof fn lemma_union_wf(self, x: int, y: int)
        requires
            self.wf(),
            self.has(x),
            self.has(y),
        ensures
            self.union(x, y).wf(),
            self.union(x, y).len() == self.len(),
    {
        self.lemma_union_roots_kept(x, y);
        self.compress(x).compress(y).lemma_link_wf(self.root(x), self.root(y));
    }

    /// After a union, the elements of the two sets have the representative
    /// that the union returns, and every other element has the root it had.
    pub proof fn lemma_union_root(self, x: int, y: int, z: int)
        requires
            self.wf(),
            self.has(x),
            self.has(y),
            self.has(z),
        ensures
            self.union(x, y).root(z) == if self.root(z) == self.root(x) || self.root(z)
                == self.root(y) {
                self.union_rep(x, y)
            } else {
                self.root(z)
            },
    {
        let mid = self.compress(x);
        self.lemma_union_roots_kept(x, y);
        self.lemma_compress_root(x, z);
        mid.lemma_compress_root(y, z);
        mid.compress(y).lemma_link_root(self.root(x), self.root(y), z);
    }

    /// Every link raises the rank, so the ranks between an element and its
    /// root leave room for each link on the way.
    pub proof fn lemma_depth(self, i: int)
        requires
            self.wf(),
            self.has(i),
        ensures
            self.depth(i) + self.ranks[i] <= self.ranks[self.root(i)],
        decreases self.parents.len() - self.ranks[i],
    {
        if self.parents[i] != i {
            self.lemma_depth(self.parents[i]);
        }
    }
}

} // verus!
