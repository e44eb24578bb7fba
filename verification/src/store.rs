//! The executable disjoint-set store.

use crate::forest::Forest;
use vstd::prelude::*;

verus! {

/// One record per element: the id of its parent, which is its own id while
/// the element is a root, and its rank.
#[derive(Clone, Copy, Debug)]
struct Element {
    parent: usize,
    rank: usize,
}

/// A [`UnionFind`] structure allows you to maintain items
/// indexed by natural numbers, each in a disjoint set.
pub struct UnionFind {
    backing: Vec<Element>,
}

impl View for UnionFind {
    type V = Forest;

    /// The parent links and ranks of the records, as a forest.
    closed spec fn view(&self) -> Forest {
        Forest {
            parents: Seq::new(self.backing@.len(), |i: int| self.backing@[i].parent as int),
            ranks: Seq::new(self.backing@.len(), |i: int| self.backing@[i].rank as nat),
        }
    }
}

impl UnionFind {
    /// The invariant of the store: that of its forest.
    pub open spec fn wf(&self) -> bool {
        self@.wf()
    }

    /// Construct a new [`UnionFind`] with the given number of initial elements,
    /// each in their own set.
    pub fn new(size: usize) -> (uf: Self)
        ensures
            uf.wf(),
            uf@ == Forest::singletons(size as nat),
            forall|z: int| 0 <= z < size ==> #[trigger] uf@.root(z) == z,
    {
        let mut backing: Vec<Element> = Vec::new();
        let mut i: usize = 0;
        while i < size
            invariant
                i <= size,
                backing@.len() == i,
                forall|j: int| 0 <= j < i ==> (#[trigger] backing@[j]).parent == j && backing@[j].rank == 0,
            decreases size - i,
        {
            backing.push(Element { parent: i, rank: 0 });
            i += 1;
        }
        let uf = UnionFind { backing };
        proof {
            Forest::lemma_singletons(size as nat);
            assert(uf@ =~= Forest::singletons(size as nat));
        }
        uf
    }

    /// Add a fresh element into the union find structure.
    ///
    /// The new element is alone in its set; its id, which is returned, is the
    /// number of elements that were there.
    pub fn fresh(&mut self) -> (id: usize)
        requires
            old(self).wf(),
        ensures
            final(self).wf(),
            final(self)@ == old(self)@.grow(),
            id == old(self)@.len(),
            final(self)@.root(id as int) == id,
            forall|z: int| 0 <= z < id ==> #[trigger] final(self)@.root(z) == old(self)@.root(z),
    {
        let fresh: usize = self.backing.len();
        self.backing.push(Element { parent: fresh, rank: 0 });
        proof {
            let f = old(self)@;
            assert(self@ =~= f.grow());
            f.lemma_grow_wf();
            assert forall|z: int| 0 <= z <= fresh implies #[trigger] f.grow().root(z) == if z
                < fresh {
                f.root(z)
            } else {
                z
            } by {
                f.lemma_grow_root(z);
            }
        }
        fresh
    }

    /// Find the representative for the set that this element belongs to.
    ///
    /// Returns `None`, and changes nothing, where there is no such element.
    /// Otherwise every element on the path from `element_id` to the
    /// representative is made a child of the representative. That changes the
    /// representative of no element.
    pub fn find(&mut self, element_id: usize) -> (rep: Option<usize>)
        requires
            old(self).wf(),
        ensures
            final(self).wf(),
            match rep {
                None => element_id >= old(self)@.len() && *final(self) == *old(self),
                Some(r) => {
                    &&& element_id < old(self)@.len()
                    &&& r == old(self)@.root(element_id as int)
                    &&& final(self)@ == old(self)@.compress(element_id as int)
                },
            },
            forall|z: int|
                old(self)@.has(z) ==> #[trigger] final(self)@.root(z) == old(self)@.root(z),
    {
        if element_id >= self.backing.len() {
            None
        } else {
            let ghost f = self@;
            let ghost x = element_id as int;
            // First, follow the parents from our element up to the root, which
            // is the element that is its own parent.
            let mut current: usize = element_id;
            let mut parent: usize = self.backing[current].parent;
            while parent != current
                invariant
                    *self == *old(self),
                    f == self@,
                    f.wf(),
                    f.has(current as int),
                    parent == f.parents[current as int],
                    f.root(current as int) == f.root(x),
                decreases f.len() - f.ranks[current as int],
            {
                current = parent;
                parent = self.backing[current].parent;
            }
            let rep: usize = current;
            current = element_id;
            // Next, walk the same path again and hang each element on it
            // directly under the representative.
            let mut element: Element = self.backing[current];
            while element.parent != current
                invariant
                    f == old(self)@,
                    f.wf(),
                    f.has(x),
                    rep == f.root(x),
                    f.has(current as int),
                    f.on_path(x, current as int),
                    self.backing@.len() == f.len(),
                    element == self.backing@[current as int],
                    forall|j: int|
                        0 <= j < f.len() ==> (#[trigger] self.backing@[j]).rank == f.ranks[j],
                    forall|j: int|
                        0 <= j < f.len() ==> (#[trigger] self.backing@[j]).parent == if f.on_path(
                            x,
                            j,
                        ) && !f.on_path(current as int, j) {
                            rep as int
                        } else {
                            f.parents[j]
                        },
                decreases f.len() - f.ranks[current as int],
            {
                let ghost c = current as int;
                let ghost up = element.parent as int;
                proof {
                    f.lemma_on_path(x, c);
                    if f.on_path(up, c) {
                        f.lemma_on_path(up, c);
                    }
                }
                self.backing.set(current, Element { parent: rep, rank: element.rank });
                current = element.parent;
                element = self.backing[current];
            }
            proof {
                f.lemma_root(x);
                f.lemma_on_path(x, current as int);
                assert(self@ =~= f.compress(x));
                f.lemma_compress_wf(x);
                assert forall|z: int| f.has(z) implies #[trigger] f.compress(x).root(z) == f.root(
                    z,
                ) by {
                    f.lemma_compress_root(x, z);
                }
            }
            Some(rep)
        }
    }

    /// Cause the union of the sets which two elements belong to.
    ///
    /// Returns `None`, and changes nothing, where one of the two is no
    /// element. Otherwise both are looked up, and their representatives are
    /// joined unless they are one and the same: the one of lower rank becomes
    /// a child of the other, and on equal ranks the first becomes a child of
    /// the second, whose rank grows by one. The representative that stands for
    /// the joint set from then on is returned.
    pub fn union(&mut self, element1: usize, element2: usize) -> (rep: Option<usize>)
        requires
            old(self).wf(),
        ensures
            final(self).wf(),
            match rep {
                None => {
                    &&& element1 >= old(self)@.len() || element2 >= old(self)@.len()
                    &&& *final(self) == *old(self)
                },
                Some(r) => {
                    &&& element1 < old(self)@.len()
                    &&& element2 < old(self)@.len()
                    &&& r == old(self)@.union_rep(element1 as int, element2 as int)
                    &&& final(self)@ == old(self)@.union(element1 as int, element2 as int)
                    &&& forall|z: int|
                        old(self)@.has(z) ==> #[trigger] final(self)@.root(z) == if old(self)@.root(
                            z,
                        ) == old(self)@.root(element1 as int) || old(self)@.root(z) == old(
                            self,
                        )@.root(element2 as int) {
                            r as int
                        } else {
                            old(self)@.root(z)
                        }
                },
            },
    {
        if element1 >= self.backing.len() || element2 >= self.backing.len() {
            None
        } else {
            let ghost f = self@;
            let ghost x = element1 as int;
            let ghost y = element2 as int;
            proof {
                f.lemma_union_roots_kept(x, y);
                f.lemma_union_wf(x, y);
                assert forall|z: int| f.has(z) implies #[trigger] f.union(x, y).root(z) == if f.root(
                    z,
                ) == f.root(x) || f.root(z) == f.root(y) {
                    f.union_rep(x, y)
                } else {
                    f.root(z)
                } by {
                    f.lemma_union_root(x, y, z);
                }
            }
            let rep1: usize = self.find(element1).unwrap();
            let rep2: usize = self.find(element2).unwrap();
            let ghost g = self@;
            if rep1 == rep2 {
                return Some(rep1);
            }
            let rank1: usize = self.backing[rep1].rank;
            let rank2: usize = self.backing[rep2].rank;
            if rank1 < rank2 {
                self.backing.set(rep1, Element { parent: rep2, rank: rank1 });
                assert(self@ =~= g.link(rep1 as int, rep2 as int));
                Some(rep2)
            } else if rank1 > rank2 {
                self.backing.set(rep2, Element { parent: rep1, rank: rank2 });
                assert(self@ =~= g.link(rep1 as int, rep2 as int));
                Some(rep1)
            } else {
                self.backing.set(rep1, Element { parent: rep2, rank: rank1 });
                self.backing.set(rep2, Element { parent: rep2, rank: rank2 + 1 });
                assert(self@ =~= g.link(rep1 as int, rep2 as int));
                Some(rep2)
            }
        }
    }
}

} // verus!
