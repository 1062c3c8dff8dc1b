use vstd::prelude::*;
use vstd::set_lib::*;

verus! {

/// One element of the forest: its parent and the rank that biases merges.
pub struct UnionFindNode {
    pub parent: usize,
    pub rank: usize,
}

/// A disjoint-set forest with union by rank and path compression.
///
/// Its view maps each element to the representative of its set.
pub struct UnionFind {
    data: Vec<UnionFindNode>,
    reps: Ghost<Seq<int>>,
}

/// The representatives after the sets of `ra` and `rb` become one set,
/// represented by `w`.
pub open spec fn merged(v: Seq<int>, ra: int, rb: int, w: int) -> Seq<int> {
    Seq::new(v.len(), |i: int| if v[i] == ra || v[i] == rb { w } else { v[i] })
}

impl View for UnionFind {
    type V = Seq<int>;

    closed spec fn view(&self) -> Seq<int> {
        self.reps@
    }
}

impl UnionFind {
    /// The elements that represent their own set.
    pub open spec fn roots(&self) -> Set<int> {
        Set::new(|i: int| 0 <= i < self@.len() && self@[i] == i)
    }

    /// How many disjoint sets there are.
    pub open spec fn num_classes(&self) -> nat {
        self.roots().len()
    }

    /// The rank of element `i`: an upper bound on the height of its subtree.
    pub closed spec fn rank(&self, i: int) -> nat {
        self.data@[i].rank as nat
    }

    /// How far the rank of element `i` is below the number of elements.
    pub closed spec fn headroom(&self, i: int) -> int {
        self.data@.len() - self.data@[i].rank
    }

    /// Both forests hold the same ranks.
    pub closed spec fn same_ranks(&self, other: &UnionFind) -> bool {
        &&& self.data@.len() == other.data@.len()
        &&& forall|i: int| 0 <= i < self.data@.len() ==> #[trigger] self.data@[i].rank == other.data@[i].rank
    }

    #[verifier::opaque]
    pub closed spec fn wf(&self) -> bool {
        let n = self.data@.len();
        let d = self.data@;
        let r = self.reps@;
        &&& r.len() == n
        &&& forall|i: int| 0 <= i < n ==> 0 <= #[trigger] r[i] < n && r[r[i]] == r[i]
        &&& forall|i: int| 0 <= i < n ==> (#[trigger] d[i]).parent < n
            && r[d[i].parent as int] == r[i]
            && (d[i].parent == i <==> r[i] == i)
            && (d[i].parent != i ==> d[i].rank < d[d[i].parent as int].rank)
            && (r[i] != i ==> d[i].rank < d[r[i]].rank)
            && d[i].rank + self.roots().len() <= n
        &&& self.roots().finite()
    }

    /// `size` singleton sets: each element is its own representative.
    pub fn new(size: usize) -> (uf: UnionFind)
        ensures
            uf.wf(),
            uf@.len() == size,
            forall|i: int| 0 <= i < size ==> #[trigger] uf@[i] == i,
            forall|i: int| 0 <= i < size ==> #[trigger] uf.rank(i) == 0,
            uf.num_classes() == size,
    {
        let mut my_data: Vec<UnionFindNode> = Vec::with_capacity(size);
        let mut i: usize = 0;
        while i < size
            invariant
                i <= size,
                my_data@.len() == i,
                forall|j: int| 0 <= j < i ==> (#[trigger] my_data@[j]).parent == j && my_data@[j].rank == 0,
            decreases size - i,
        {
            my_data.push(UnionFindNode { parent: i, rank: 0 });
            i += 1;
        }
        let uf = UnionFind { data: my_data, reps: Ghost(Seq::new(size as nat, |j: int| j)) };
        proof {
            reveal(UnionFind::wf);
            lemma_int_range(0, size as int);
            assert(uf.roots() =~= set_int_range(0, size as int));
        }
        uf
    }

    /// The representative of the set holding `index`. Compresses the path
    /// that it walks; the sets themselves do not change.
    pub fn find(&mut self, index: usize) -> (r: usize)
        requires
            old(self).wf(),
            index < old(self)@.len(),
        ensures
            final(self).wf(),
            final(self)@ == old(self)@,
            final(self).same_ranks(old(self)),
            r == old(self)@[index as int],
        decreases old(self).headroom(index as int),
    {
        proof {
            reveal(UnionFind::wf);
        }
        let parent = self.data[index].parent;
        if parent != index {
            let ghost before = *self;
            let root = self.find(parent);
            let rank = self.data[index].rank;
            self.data.set(index, UnionFindNode { parent: root, rank });
            proof {
                reveal(UnionFind::wf);
                let d = self.data@;
                let r = self.reps@;
                assert(self.roots() == before.roots());
                assert forall|i: int| 0 <= i < d.len() implies (#[trigger] d[i]).parent < d.len()
                    && r[d[i].parent as int] == r[i]
                    && (d[i].parent == i <==> r[i] == i)
                    && (d[i].parent != i ==> d[i].rank < d[d[i].parent as int].rank)
                    && (r[i] != i ==> d[i].rank < d[r[i]].rank)
                    && d[i].rank + self.roots().len() <= d.len() by {
                    assert(before.data@[i].rank == d[i].rank);
                    assert(before.data@[r[i]].rank == d[r[i]].rank);
                    if i != index {
                        assert(before.data@[d[i].parent as int].rank == d[d[i].parent as int].rank);
                    }
                }
                assert(self.same_ranks(&before));
            }
        }
        self.data[index].parent
    }

    /// Merges the sets of `this` and `that`. The root of lower rank goes under
    /// the other; on equal ranks `that`'s root goes under `this`'s, whose rank
    /// grows by one.
    #[verifier::rlimit(30)]
    pub fn union(&mut self, this: usize, that: usize)
        requires
            old(self).wf(),
            this < old(self)@.len(),
            that < old(self)@.len(),
        ensures
            final(self).wf(),
            final(self)@[this as int] == old(self)@[this as int]
                || final(self)@[this as int] == old(self)@[that as int],
            final(self)@ == merged(
                old(self)@,
                old(self)@[this as int],
                old(self)@[that as int],
                final(self)@[this as int],
            ),
            final(self)@[this as int] == if old(self).rank(old(self)@[this as int]) < old(self).rank(
                old(self)@[that as int],
            ) {
                old(self)@[that as int]
            } else {
                old(self)@[this as int]
            },
            forall|i: int|
                0 <= i < old(self)@.len() ==> #[trigger] final(self).rank(i) == if i == old(
                    self,
                )@[this as int] && old(self)@[this as int] != old(self)@[that as int] && old(
                    self,
                ).rank(old(self)@[this as int]) == old(self).rank(old(self)@[that as int]) {
                    old(self).rank(i) + 1
                } else {
                    old(self).rank(i)
                },
            final(self).num_classes() + (if old(self)@[this as int] == old(self)@[that as int] {
                0int
            } else {
                1int
            }) == old(self).num_classes(),
    {
        let ghost start = *self;
        let this_root = self.find(this);
        let that_root = self.find(that);
        if this_root == that_root {
            proof {
                assert(self@ =~= merged(start@, this_root as int, that_root as int, this_root as int));
                start.lemma_len();
                assert forall|i: int| 0 <= i < start@.len() implies #[trigger] self.rank(i) == start.rank(i) by {
                    assert(self.data@[i].rank == start.data@[i].rank);
                }
            }
            return;
        }
        let ghost before = *self;
        proof {
            assert(self.data@.len() == start.data@.len());
            assert forall|i: int| 0 <= i < self.data@.len() implies #[trigger] self.rank(i) == start.rank(i) by {
                assert(self.data@[i].rank == start.data@[i].rank);
            }
            self.lemma_rep_is_root(this as int);
            self.lemma_rep_is_root(that as int);
            self.lemma_two_roots(this_root as int, that_root as int);
        }
        let this_rank = self.data[this_root].rank;
        let that_rank = self.data[that_root].rank;
        let len = self.data.len();
        assert(this_rank + 2 <= len);
        let winner: usize;
        let loser: usize;
        if this_rank < that_rank {
            self.data.set(this_root, UnionFindNode { parent: that_root, rank: this_rank });
            winner = that_root;
            loser = this_root;
        } else if that_rank < this_rank {
            self.data.set(that_root, UnionFindNode { parent: this_root, rank: that_rank });
            winner = this_root;
            loser = that_root;
        } else {
            self.data.set(that_root, UnionFindNode { parent: this_root, rank: that_rank });
            self.data.set(this_root, UnionFindNode { parent: this_root, rank: this_rank + 1 });
            winner = this_root;
            loser = that_root;
        }
        self.reps = Ghost(merged(before@, this_root as int, that_root as int, winner as int));
        proof {
            assert forall|i: int|
                0 <= i < before.data@.len() && i != loser && i != winner implies #[trigger] self.data@[i]
                    == before.data@[i] by {}
            assert(merged(before@, this_root as int, that_root as int, winner as int)
                =~= merged(before@, loser as int, winner as int, winner as int));
            Self::lemma_link(before, *self, loser as int, winner as int);
            assert(self@[this as int] == winner);
            assert forall|i: int| 0 <= i < before@.len() implies #[trigger] self.rank(i) == if i == start@[this as int] && start@[this as int] != start@[that as int] && start.rank(start@[this as int]) == start.rank(start@[that as int]) {
                start.rank(i) + 1
            } else {
                start.rank(i)
            } by {
                assert(self.data@[i].rank == before.data@[i].rank || i == loser || i == winner);
            }
        }
    }

    /// A representative lies among the elements and represents itself.
    pub proof fn lemma_rep_is_root(&self, i: int)
        requires
            self.wf(),
            0 <= i < self@.len(),
        ensures
            0 <= self@[i] < self@.len(),
            self@[self@[i]] == self@[i],
            self.roots().finite(),
            self.roots().contains(self@[i]),
    {
        reveal(UnionFind::wf);
    }

    proof fn lemma_len(&self)
        requires
            self.wf(),
        ensures
            self.data@.len() == self@.len(),
    {
        reveal(UnionFind::wf);
    }

    /// Two distinct representatives make at least two sets, so no rank can
    /// reach the number of elements less one.
    proof fn lemma_two_roots(&self, a: int, b: int)
        requires
            self.wf(),
            self.roots().contains(a),
            self.roots().contains(b),
            a != b,
        ensures
            self.data@.len() == self@.len(),
            self.roots().len() >= 2,
            self.data@[a].rank + 2 <= self@.len(),
            self.data@[b].rank + 2 <= self@.len(),
            self.data@[a].parent == a,
            self.data@[b].parent == b,
    {
        reveal(UnionFind::wf);
        let two = set![a, b];
        assert(two.len() == 2);
        lemma_len_subset(two, self.roots());
        let _ = self.data@[a];
        let _ = self.data@[b];
    }

    /// Hanging root `l` under root `w` keeps the forest well formed and
    /// removes one set.
    proof fn lemma_link(before: UnionFind, after: UnionFind, l: int, w: int)
        requires
            before.wf(),
            0 <= l < before@.len(),
            0 <= w < before@.len(),
            l != w,
            before@[l] == l,
            before@[w] == w,
            before.roots().len() >= 2,
            after.data@.len() == before.data@.len(),
            after.reps@ == merged(before@, l, w, w),
            after.data@[l].parent == w,
            after.data@[l].rank == before.data@[l].rank,
            after.data@[w].parent == w,
            before.data@[w].rank <= after.data@[w].rank <= before.data@[w].rank + 1,
            after.data@[l].rank < after.data@[w].rank,
            forall|i: int|
                0 <= i < before.data@.len() && i != l && i != w ==> #[trigger] after.data@[i]
                    == before.data@[i],
        ensures
            after.wf(),
            after.roots() == before.roots().remove(l),
            after.num_classes() == before.num_classes() - 1,
    {
        reveal(UnionFind::wf);
        let n = before.data@.len();
        let d0 = before.data@;
        let r0 = before.reps@;
        let d = after.data@;
        let r = after.reps@;
        assert(after.roots() =~= before.roots().remove(l));
        assert forall|i: int| 0 <= i < n implies 0 <= #[trigger] r[i] < n && r[r[i]] == r[i] by {
            assert(0 <= r0[i] < n);
        }
        assert forall|i: int| 0 <= i < n implies (#[trigger] d[i]).parent < n
            && r[d[i].parent as int] == r[i]
            && (d[i].parent == i <==> r[i] == i)
            && (d[i].parent != i ==> d[i].rank < d[d[i].parent as int].rank)
            && (r[i] != i ==> d[i].rank < d[r[i]].rank)
            && d[i].rank + after.roots().len() <= n by {
            assert(0 <= r0[i] < n);
            let _ = d0[i];
            let _ = d0[l];
            let _ = d0[w];
            if i != l && i != w {
                let p = d0[i].parent as int;
                let _ = d0[p];
                if p != l && p != w {
                    assert(d[p] == d0[p]);
                }
                if r0[i] != l && r0[i] != w {
                    assert(d[r0[i]] == d0[r0[i]]);
                }
            }
        }
    }
}

} // verus!
