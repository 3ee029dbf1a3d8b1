//! The group-liberty tracker: a weighted, path-compressed disjoint-set
//! forest with one node per board position. Every set representative owns
//! the liberty set of its group (the empty positions adjacent to some stone
//! of the group); liberty sets of non-representative nodes are drained and
//! stay empty.

use vstd::prelude::*;
use vstd::set_lib::lemma_len_subset;
use vstd::set_lib::FiniteRange;
use crate::error::GoError;
use crate::liberties::Liberties;

verus! {

pub struct UnionFind {
    pub parent: Vec<usize>,
    pub rank: Vec<usize>,
    pub size: Vec<usize>,
    pub liberties: Vec<Liberties>,
    pub repr: Ghost<Seq<usize>>,
    pub depth: Ghost<Seq<nat>>,
}

impl UnionFind {
    /// How many board positions (forest nodes) the tracker covers.
    pub closed spec fn count(self) -> int {
        self.parent@.len() as int
    }

    /// The representative of the set containing node `i`.
    pub closed spec fn rep(self, i: int) -> int {
        self.repr@[i] as int
    }

    /// Two nodes share a representative: their stones form one chain.
    pub open spec fn same(self, i: int, j: int) -> bool {
        self.rep(i) == self.rep(j)
    }

    /// Every node of the set containing node `i`.
    pub open spec fn group(self, i: int) -> Set<usize> {
        Set::new(|j: usize| j < self.count() && self.same(i, j as int))
    }

    /// The liberty set of the group containing node `i`.
    pub closed spec fn libs(self, i: int) -> Set<usize> {
        self.liberties@[self.rep(i)]@
    }

    /// Internal well-formedness: matching lengths, a parent forest that the
    /// ghost representative map and ghost depth measure agree with, drained
    /// liberty slots away from representatives, and sizes that count groups.
    pub closed spec fn valid(self) -> bool {
        &&& self.rank@.len() == self.parent@.len()
        &&& self.size@.len() == self.parent@.len()
        &&& self.liberties@.len() == self.parent@.len()
        &&& self.repr@.len() == self.parent@.len()
        &&& self.depth@.len() == self.parent@.len()
        &&& forall|i: int| 0 <= i < self.count() ==> (#[trigger] self.parent@[i]) < self.count()
        &&& forall|i: int| 0 <= i < self.count() ==> 0 <= #[trigger] self.rep(i) < self.count()
        &&& forall|i: int| 0 <= i < self.count() ==> #[trigger] self.rep(self.rep(i)) == self.rep(i)
        &&& forall|i: int|
            0 <= i < self.count() ==> #[trigger] self.rep(self.parent@[i] as int) == self.rep(i)
        &&& forall|i: int|
            0 <= i < self.count() ==> ((#[trigger] self.parent@[i]) as int == i <==> self.rep(i)
                == i)
        &&& forall|i: int|
            0 <= i < self.count() && (#[trigger] self.parent@[i]) as int != i
                ==> self.depth@[self.parent@[i] as int] < self.depth@[i]
        &&& forall|i: int| 0 <= i < self.count() ==> (#[trigger] self.liberties@[i]).wf()
        &&& forall|i: int|
            0 <= i < self.count() && self.rep(i) != i ==> (#[trigger] self.liberties@[i])@
                == Set::<usize>::empty()
        &&& forall|i: int|
            0 <= i < self.count() && self.rep(i) == i ==> (#[trigger] self.size@[i]) == self.group(
                i,
            ).len()
    }

    /// A group is a finite set of at most `count` nodes, containing its
    /// own argument.
    pub proof fn lemma_group_finite(self, i: int)
        requires
            0 <= i < self.count(),
        ensures
            self.group(i).finite(),
            self.group(i).len() <= self.count(),
            self.group(i).contains(i as usize),
    {
        vstd::std_specs::vec::axiom_spec_len(&self.parent);
        let n = self.parent@.len() as usize;
        let r = Set::<usize>::new(|j: usize| j < self.parent@.len());
        assert(r == usize::range_set(0, n)) by {
            assert(r =~= usize::range_set(0, n));
        }
        usize::range_properties(0, n);
        assert(self.group(i).subset_of(r));
        lemma_len_subset(self.group(i), r);
    }

    /// A representative is in range and is its own representative.
    pub proof fn lemma_rep_props(self, i: int)
        requires
            self.valid(),
            0 <= i < self.count(),
        ensures
            0 <= self.rep(i) < self.count(),
            self.rep(self.rep(i)) == self.rep(i),
    {
    }

    /// The size counter at a chain's representative counts the chain's
    /// members.
    pub proof fn lemma_size_counts_group(self, i: int)
        requires
            self.valid(),
            0 <= i < self.count(),
        ensures
            self.size@[self.rep(i)] == self.group(i).len(),
    {
        self.lemma_rep_props(i);
        assert(self.group(self.rep(i)) =~= self.group(i));
    }

    /// Connected nodes see one shared liberty set.
    pub proof fn lemma_same_libs(self, i: int, j: int)
        requires
            self.valid(),
            0 <= i < self.count(),
            0 <= j < self.count(),
            self.same(i, j),
        ensures
            self.libs(i) == self.libs(j),
    {
    }

    /// Two trackers over the same ghost representative map carve the nodes
    /// into the same groups.
    proof fn lemma_partition_eq(a: UnionFind, b: UnionFind)
        requires
            a.parent@.len() == b.parent@.len(),
            a.repr@ == b.repr@,
        ensures
            forall|i: int| 0 <= i < a.count() ==> #[trigger] a.group(i) == b.group(i),
    {
        assert forall|i: int| 0 <= i < a.count() implies #[trigger] a.group(i) == b.group(i) by {
            assert(a.group(i) =~= b.group(i));
        }
    }


    /// Changing the stored liberty set of one representative slot keeps the
    /// tracker well formed and leaves every other group's liberties alone.
    proof fn lemma_valid_after_lib_update(a: UnionFind, b: UnionFind, slot: int)
        requires
            a.valid(),
            0 <= slot < a.count(),
            a.rep(slot) == slot,
            b.parent@ == a.parent@,
            b.rank@ == a.rank@,
            b.size@ == a.size@,
            b.repr@ == a.repr@,
            b.depth@ == a.depth@,
            b.liberties@ == a.liberties@.update(slot, b.liberties@[slot]),
            b.liberties@.len() == a.liberties@.len(),
            b.liberties@[slot].wf(),
        ensures
            b.valid(),
            forall|i: int| 0 <= i < a.count() ==> #[trigger] b.rep(i) == a.rep(i),
            forall|i: int| 0 <= i < a.count() ==> #[trigger] b.group(i) == a.group(i),
            forall|i: int|
                0 <= i < a.count() ==> #[trigger] b.libs(i) == (if a.same(i, slot) {
                    b.liberties@[slot]@
                } else {
                    a.libs(i)
                }),
    {
        assert forall|i: int| 0 <= i < b.count() implies (#[trigger] b.parent@[i]) < b.count() by {
            assert(a.parent@[i] < a.count());
        }
        assert forall|i: int| 0 <= i < b.count() implies 0 <= #[trigger] b.rep(i) < b.count() by {
            assert(0 <= a.rep(i) < a.count());
        }
        assert forall|i: int| 0 <= i < b.count() implies #[trigger] b.rep(b.rep(i)) == b.rep(i) by {
            assert(a.rep(a.rep(i)) == a.rep(i));
        }
        assert forall|i: int|
            0 <= i < b.count() implies #[trigger] b.rep(b.parent@[i] as int) == b.rep(i) by {
            assert(a.rep(a.parent@[i] as int) == a.rep(i));
        }
        assert forall|i: int|
            0 <= i < b.count() implies ((#[trigger] b.parent@[i]) as int == i <==> b.rep(i)
            == i) by {
            assert((a.parent@[i] as int == i) <==> a.rep(i) == i);
        }
        assert forall|i: int|
            0 <= i < b.count() && (#[trigger] b.parent@[i]) as int != i implies b.depth@[b.parent@[i] as int]
            < b.depth@[i] by {
            assert(a.depth@[a.parent@[i] as int] < a.depth@[i]);
        }
        assert forall|i: int| 0 <= i < b.count() implies (#[trigger] b.liberties@[i]).wf() by {
            if i != slot {
                assert(a.liberties@[i].wf());
            }
        }
        assert forall|i: int|
            0 <= i < b.count() && b.rep(i) != i implies (#[trigger] b.liberties@[i])@
            == Set::<usize>::empty() by {
            if i != slot {
                assert(a.rep(i) != i ==> a.liberties@[i]@ == Set::<usize>::empty());
            }
        }
        UnionFind::lemma_partition_eq(a, b);
        assert forall|i: int|
            0 <= i < b.count() && b.rep(i) == i implies (#[trigger] b.size@[i]) == b.group(
            i,
        ).len() by {
            assert(a.size@[i] == a.group(i).len());
            assert(a.group(i) == b.group(i));
        }
        assert(b.valid());
        assert forall|i: int|
            0 <= i < a.count() implies #[trigger] b.libs(i) == (if a.same(i, slot) {
            b.liberties@[slot]@
        } else {
            a.libs(i)
        }) by {
            assert(0 <= a.rep(i) < a.count());
            if a.same(i, slot) {
                assert(b.rep(i) == slot);
            } else {
                assert(b.rep(i) != slot);
                assert(b.liberties@[b.rep(i)] == a.liberties@[a.rep(i)]);
            }
        }
    }

    /// One isolated node per board position: each its own representative,
    /// with an empty liberty set and size one.
    pub fn new(board_size: usize) -> (r: UnionFind)
        ensures
            r.valid(),
            r.count() == board_size,
            forall|i: int| 0 <= i < board_size ==> #[trigger] r.rep(i) == i,
            forall|i: int| 0 <= i < board_size ==> #[trigger] r.libs(i) == Set::<usize>::empty(),
            forall|i: int| 0 <= i < board_size ==> (#[trigger] r.parent@[i]) as int == i,
            forall|i: int| 0 <= i < board_size ==> (#[trigger] r.size@[i]) == 1,
            forall|i: int| 0 <= i < board_size ==> (#[trigger] r.rank@[i]) == 0,
    {
        let mut parent: Vec<usize> = Vec::new();
        let mut rank: Vec<usize> = Vec::new();
        let mut size: Vec<usize> = Vec::new();
        let mut liberties: Vec<Liberties> = Vec::new();
        let mut i: usize = 0;
        while i < board_size
            invariant
                i <= board_size,
                parent@.len() == i,
                rank@.len() == i,
                size@.len() == i,
                liberties@.len() == i,
                forall|j: int| 0 <= j < i ==> (#[trigger] parent@[j]) as int == j,
                forall|j: int| 0 <= j < i ==> (#[trigger] size@[j]) == 1,
                forall|j: int| 0 <= j < i ==> (#[trigger] rank@[j]) == 0,
                forall|j: int|
                    0 <= j < i ==> (#[trigger] liberties@[j]).wf() && liberties@[j]@
                        == Set::<usize>::empty(),
            decreases board_size - i,
        {
            parent.push(i);
            rank.push(0);
            size.push(1);
            liberties.push(Liberties::new());
            i += 1;
        }
        let r = UnionFind {
            parent,
            rank,
            size,
            liberties,
            repr: Ghost(Seq::new(board_size as nat, |j: int| j as usize)),
            depth: Ghost(Seq::new(board_size as nat, |j: int| 0nat)),
        };
        proof {
            assert forall|k: int|
                0 <= k < r.count() && r.rep(k) == k implies (#[trigger] r.size@[k]) == r.group(
                k,
            ).len() by {
                assert(r.group(k) =~= Set::<usize>::empty().insert(k as usize));
            }
        }
        r
    }

    /// The representative of the set containing `target`, compressing
    /// grandparent pointers as it walks.
    fn find(&mut self, target: usize) -> (r: usize)
        requires
            old(self).valid(),
            target < old(self).count(),
        ensures
            final(self).valid(),
            final(self).count() == old(self).count(),
            forall|i: int|
                0 <= i < old(self).count() ==> #[trigger] final(self).rep(i) == old(self).rep(i),
            forall|i: int|
                0 <= i < old(self).count() ==> #[trigger] final(self).group(i) == old(self).group(
                    i,
                ),
            forall|i: int|
                0 <= i < old(self).count() ==> #[trigger] final(self).libs(i) == old(self).libs(i),
            final(self).liberties@ == old(self).liberties@,
            final(self).size@ == old(self).size@,
            final(self).rank@ == old(self).rank@,
            r < old(self).count(),
            r as int == old(self).rep(target as int),
            final(self).rep(r as int) == r as int,
    {
        let mut t = target;
        while t != self.parent[t]
            invariant
                self.valid(),
                t < self.count(),
                self.count() == old(self).count(),
                self.repr@ == old(self).repr@,
                self.liberties@ == old(self).liberties@,
                self.size@ == old(self).size@,
                self.rank@ == old(self).rank@,
                self.rep(t as int) == old(self).rep(target as int),
            decreases self.depth@[t as int],
        {
            let ghost pre = *self;
            let p = self.parent[t];
            let gp = self.parent[p];
            proof {
                assert(pre.rep(gp as int) == pre.rep(p as int));
                assert(pre.rep(p as int) == pre.rep(t as int));
                if gp == t {
                    // a two-cycle would break the strictly decreasing depth
                    assert(pre.depth@[p as int] < pre.depth@[t as int]);
                    assert(pre.depth@[t as int] < pre.depth@[p as int]);
                    assert(false);
                }
                if pre.parent@[p as int] as int != p as int {
                    assert(pre.depth@[gp as int] < pre.depth@[p as int]);
                }
                assert(pre.depth@[gp as int] < pre.depth@[t as int]);
            }
            self.parent.set(t, gp);
            proof {
                assert(self.repr@ == pre.repr@);
                assert((pre.parent@[t as int] as int == t as int) <==> pre.rep(t as int) == t
                    as int);
                assert(pre.rep(t as int) != t as int);
                assert forall|i: int|
                    0 <= i < self.count() implies #[trigger] self.rep(self.parent@[i] as int)
                    == self.rep(i) by {
                    if i == t as int {
                        assert(self.parent@[i] == gp);
                        assert(pre.rep(gp as int) == pre.rep(t as int));
                    } else {
                        assert(self.parent@[i] == pre.parent@[i]);
                        assert(pre.rep(pre.parent@[i] as int) == pre.rep(i));
                    }
                }
                assert forall|i: int|
                    0 <= i < self.count() implies ((#[trigger] self.parent@[i]) as int == i
                    <==> self.rep(i) == i) by {
                    if i == t as int {
                        assert(gp != t);
                    } else {
                        assert(self.parent@[i] == pre.parent@[i]);
                        assert((pre.parent@[i] as int == i) <==> pre.rep(i) == i);
                    }
                }
                assert forall|i: int|
                    0 <= i < self.count() && (#[trigger] self.parent@[i]) as int
                        != i implies self.depth@[self.parent@[i] as int] < self.depth@[i] by {
                    if i == t as int {
                        assert(self.depth@[gp as int] < self.depth@[t as int]);
                    } else {
                        assert(self.parent@[i] == pre.parent@[i]);
                        if pre.parent@[i] as int != i {
                            assert(pre.depth@[pre.parent@[i] as int] < pre.depth@[i]);
                        }
                    }
                }
                assert forall|i: int|
                    0 <= i < self.count() implies (#[trigger] self.parent@[i]) < self.count() by {
                    if i == t as int {
                        assert(pre.parent@[p as int] < pre.count());
                    } else {
                        assert(pre.parent@[i] < pre.count());
                    }
                }
                assert forall|i: int|
                    0 <= i < self.count() implies 0 <= #[trigger] self.rep(i) < self.count() by {
                    assert(0 <= pre.rep(i) < pre.count());
                }
                assert forall|i: int|
                    0 <= i < self.count() implies #[trigger] self.rep(self.rep(i)) == self.rep(
                    i,
                ) by {
                    assert(pre.rep(pre.rep(i)) == pre.rep(i));
                }
                assert forall|i: int|
                    0 <= i < self.count() implies (#[trigger] self.liberties@[i]).wf() by {
                    assert(pre.liberties@[i].wf());
                }
                assert forall|i: int|
                    0 <= i < self.count() && self.rep(i) != i implies (
                #[trigger] self.liberties@[i])@ == Set::<usize>::empty() by {
                    assert(pre.rep(i) != i ==> pre.liberties@[i]@ == Set::<usize>::empty());
                }
                UnionFind::lemma_partition_eq(pre, *self);
                assert forall|i: int|
                    0 <= i < self.count() && self.rep(i) == i implies (#[trigger] self.size@[i])
                    == self.group(i).len() by {
                    assert(pre.size@[i] == pre.group(i).len());
                    assert(pre.group(i) == self.group(i));
                }
                assert(self.valid());
            }
            t = gp;
        }
        proof {
            assert(self.rep(t as int) == t as int);
            UnionFind::lemma_partition_eq(*old(self), *self);
            assert forall|i: int|
                0 <= i < old(self).count() implies #[trigger] self.libs(i) == old(self).libs(
                i,
            ) by {}
        }
        t
    }

    /// Whether two positions belong to one chain. Compresses paths, but
    /// leaves every observable part of the tracker (groups, liberty sets,
    /// sizes) unchanged, so repeated queries return identical results.
    pub fn connected(&mut self, x: usize, y: usize) -> (r: bool)
        requires
            old(self).valid(),
            x < old(self).count(),
            y < old(self).count(),
        ensures
            final(self).valid(),
            final(self).count() == old(self).count(),
            forall|i: int|
                0 <= i < old(self).count() ==> #[trigger] final(self).rep(i) == old(self).rep(i),
            forall|i: int|
                0 <= i < old(self).count() ==> #[trigger] final(self).group(i) == old(self).group(
                    i,
                ),
            forall|i: int|
                0 <= i < old(self).count() ==> #[trigger] final(self).libs(i) == old(self).libs(i),
            final(self).liberties@ == old(self).liberties@,
            final(self).size@ == old(self).size@,
            final(self).rank@ == old(self).rank@,
            r == old(self).same(x as int, y as int),
    {
        let a = self.find(x);
        let b = self.find(y);
        a == b
    }

    /// Whether the group containing `index` has an empty liberty set.
    /// Resolves to the representative without mutating anything.
    pub fn no_liberties(&self, index: usize) -> (r: bool)
        requires
            self.valid(),
            index < self.count(),
        ensures
            r == self.libs(index as int).is_empty(),
    {
        let mut t = index;
        while t != self.parent[t]
            invariant
                self.valid(),
                t < self.count(),
                self.rep(t as int) == self.rep(index as int),
            decreases self.depth@[t as int],
        {
            t = self.parent[t];
        }
        assert(self.rep(t as int) == t as int);
        self.liberties[t].is_empty()
    }
    /// Graft the tree rooted at `loser` under the root `winner`, pool the
    /// two liberty sets at `winner`, and drop the two just-connected stone
    /// positions `x` and `y` from the pooled set.
    fn graft(&mut self, loser: usize, winner: usize, x: usize, y: usize)
        requires
            old(self).valid(),
            loser < old(self).count(),
            winner < old(self).count(),
            old(self).rep(loser as int) == loser as int,
            old(self).rep(winner as int) == winner as int,
            loser != winner,
        ensures
            final(self).valid(),
            final(self).count() == old(self).count(),
            final(self).rank@ == old(self).rank@,
            forall|i: int|
                0 <= i < old(self).count() ==> #[trigger] final(self).rep(i) == (if old(self).rep(
                    i,
                ) == loser as int {
                    winner as int
                } else {
                    old(self).rep(i)
                }),
            forall|i: int|
                0 <= i < old(self).count() ==> #[trigger] final(self).libs(i) == (if old(
                    self,
                ).same(i, loser as int) || old(self).same(i, winner as int) {
                    old(self).libs(loser as int).union(old(self).libs(winner as int)).remove(
                        x,
                    ).remove(y)
                } else {
                    old(self).libs(i)
                }),
    {
        let ghost gl = old(self).group(loser as int);
        let ghost gw = old(self).group(winner as int);
        proof {
            old(self).lemma_group_finite(loser as int);
            old(self).lemma_group_finite(winner as int);
            assert(gl.disjoint(gw)) by {
                assert forall|j: usize| gl.contains(j) implies !gw.contains(j) by {}
            }
            vstd::set_lib::lemma_set_disjoint_lens(gl, gw);
            vstd::std_specs::vec::axiom_spec_len(&self.parent);
            let nn = self.parent@.len() as usize;
            let rs = Set::<usize>::new(|j: usize| j < self.parent@.len());
            assert(rs =~= usize::range_set(0, nn));
            usize::range_properties(0, nn);
            assert((gl + gw).subset_of(rs));
            vstd::set_lib::lemma_len_subset(gl + gw, rs);
            assert(gl.len() + gw.len() <= self.parent@.len());
            assert(self.size@[winner as int] == gw.len());
            assert(self.size@[loser as int] == gl.len());
        }
        let sw = self.size[winner];
        let sl = self.size[loser];
        self.size.set(winner, sw + sl);
        self.parent.set(loser, winner);
        self.liberties.push(Liberties::new());
        let drained = self.liberties.swap_remove(loser);
        let ghost a = *old(self);
        proof {
            assert(drained == a.liberties@[loser as int]);
            assert(self.liberties@ =~= a.liberties@.update(
                loser as int,
                self.liberties@[loser as int],
            ));
            assert(self.liberties@[loser as int]@ == Set::<usize>::empty());
            assert(self.liberties@[winner as int] == a.liberties@[winner as int]);
            assert(self.liberties@[winner as int].wf());
        }
        let slot = &mut self.liberties[winner];
        slot.absorb(drained);
        slot.remove(x);
        slot.remove(y);
        let ghost n = old(self).repr@.len();
        self.repr = Ghost(
            Seq::new(
                n,
                |i: int|
                    if a.repr@[i] == loser {
                        winner
                    } else {
                        a.repr@[i]
                    },
            ),
        );
        self.depth = Ghost(
            Seq::new(
                n,
                |i: int|
                    if a.repr@[i] == loser {
                        (a.depth@[i] + a.depth@[winner as int] + 1) as nat
                    } else {
                        a.depth@[i]
                    },
            ),
        );
        proof {
            let b = *self;
            let merged = a.libs(loser as int).union(a.libs(winner as int)).remove(x).remove(y);
            assert(b.liberties@[winner as int]@ == merged) by {
                assert(a.liberties@[winner as int]@.union(a.liberties@[loser as int]@) =~= a.libs(
                    loser as int,
                ).union(a.libs(winner as int)));
            }
            assert(b.liberties@[winner as int].wf());
            assert(b.liberties@[loser as int]@ == Set::<usize>::empty());
            assert forall|i: int|
                0 <= i < b.count() implies #[trigger] b.rep(i) == (if a.rep(i) == loser as int {
                winner as int
            } else {
                a.rep(i)
            }) by {}
            assert forall|i: int|
                0 <= i < b.count() implies (#[trigger] b.parent@[i]) < b.count() by {
                if i != loser {
                    assert(a.parent@[i] < a.count());
                }
            }
            assert forall|i: int| 0 <= i < b.count() implies 0 <= #[trigger] b.rep(i)
                < b.count() by {
                assert(0 <= a.rep(i) < a.count());
            }
            assert forall|i: int| 0 <= i < b.count() implies #[trigger] b.rep(b.rep(i)) == b.rep(
                i,
            ) by {
                assert(a.rep(a.rep(i)) == a.rep(i));
                assert(a.rep(winner as int) == winner as int);
            }
            assert forall|i: int|
                0 <= i < b.count() implies #[trigger] b.rep(b.parent@[i] as int) == b.rep(i) by {
                if i == loser as int {
                    assert(b.parent@[i] == winner);
                    assert(a.rep(winner as int) == winner as int);
                } else {
                    assert(b.parent@[i] == a.parent@[i]);
                    assert(a.rep(a.parent@[i] as int) == a.rep(i));
                }
            }
            assert forall|i: int|
                0 <= i < b.count() implies ((#[trigger] b.parent@[i]) as int == i <==> b.rep(i)
                == i) by {
                if i == loser as int {
                    assert(b.parent@[i] == winner);
                } else {
                    assert(b.parent@[i] == a.parent@[i]);
                    assert((a.parent@[i] as int == i) <==> a.rep(i) == i);
                    if a.rep(i) == loser as int {
                        assert(a.rep(winner as int) == winner as int);
                        assert(i != winner as int);
                    }
                }
            }
            assert forall|i: int|
                0 <= i < b.count() && (#[trigger] b.parent@[i]) as int
                    != i implies b.depth@[b.parent@[i] as int] < b.depth@[i] by {
                if i == loser as int {
                    assert(b.parent@[i] == winner);
                    assert(a.repr@[winner as int] == winner);
                } else {
                    assert(b.parent@[i] == a.parent@[i]);
                    let pi = a.parent@[i] as int;
                    assert(a.depth@[pi] < a.depth@[i]);
                    assert(a.rep(pi) == a.rep(i));
                }
            }
            assert forall|i: int|
                0 <= i < b.count() implies (#[trigger] b.liberties@[i]).wf() by {
                if i != loser as int && i != winner as int {
                    assert(a.liberties@[i].wf());
                }
            }
            assert forall|i: int|
                0 <= i < b.count() && b.rep(i) != i implies (#[trigger] b.liberties@[i])@
                == Set::<usize>::empty() by {
                if i != loser as int && i != winner as int {
                    assert(a.rep(i) != i ==> a.liberties@[i]@ == Set::<usize>::empty());
                    if a.rep(i) == i {
                        assert(b.rep(i) == i);
                    }
                }
            }
            assert forall|i: int|
                0 <= i < b.count() && b.rep(i) == i implies (#[trigger] b.size@[i]) == b.group(
                i,
            ).len() by {
                if i == winner as int {
                    assert(b.group(i) =~= gl + gw);
                    assert((gl + gw).len() == gl.len() + gw.len());
                } else {
                    assert(a.rep(a.rep(i)) == a.rep(i));
                    assert(a.rep(i) == i);
                    assert(a.size@[i] == a.group(i).len());
                    assert(b.group(i) =~= a.group(i));
                }
            }
            assert(b.valid());
            assert forall|i: int|
                0 <= i < a.count() implies #[trigger] b.libs(i) == (if a.same(i, loser as int)
                || a.same(i, winner as int) {
                merged
            } else {
                a.libs(i)
            }) by {
                assert(0 <= a.rep(i) < a.count());
                if a.same(i, loser as int) || a.same(i, winner as int) {
                    assert(b.rep(i) == winner as int);
                } else {
                    assert(b.rep(i) == a.rep(i));
                    assert(b.liberties@[b.rep(i)] == a.liberties@[a.rep(i)]);
                }
            }
        }
    }

    /// Join the chains containing `x` and `y`: a no-op when they already
    /// share a representative, otherwise the lower-rank tree is grafted
    /// under the higher-rank root (ties go to `x`'s root, whose rank then
    /// grows), the liberty sets are pooled, and both just-connected
    /// positions stop being liberties of the merged chain.
    pub fn union(&mut self, x: usize, y: usize)
        requires
            old(self).valid(),
            x < old(self).count(),
            y < old(self).count(),
        ensures
            final(self).valid(),
            final(self).count() == old(self).count(),
            forall|i: int, j: int|
                #![trigger final(self).same(i, j)]
                0 <= i < old(self).count() && 0 <= j < old(self).count() ==> (final(self).same(i, j)
                    <==> (old(self).same(i, j) || (old(self).same(i, x as int) && old(self).same(
                    j,
                    y as int,
                )) || (old(self).same(i, y as int) && old(self).same(j, x as int)))),
            forall|i: int|
                0 <= i < old(self).count() ==> #[trigger] final(self).libs(i) == (if old(
                    self,
                ).same(x as int, y as int) {
                    old(self).libs(i)
                } else if old(self).same(i, x as int) || old(self).same(i, y as int) {
                    old(self).libs(x as int).union(old(self).libs(y as int)).remove(x).remove(y)
                } else {
                    old(self).libs(i)
                }),
            old(self).same(x as int, y as int)
                ==> final(self).size@ == old(self).size@ && final(self).rank@ == old(self).rank@,
    {
        let root_x = self.find(x);
        let ghost s1 = *self;
        let root_y = self.find(y);
        let ghost s2 = *self;
        proof {
            assert forall|i: int| 0 <= i < s2.count() implies #[trigger] s2.rep(i) == old(
                self,
            ).rep(i) by {
                assert(s1.rep(i) == old(self).rep(i));
            }
            assert forall|i: int| 0 <= i < s2.count() implies #[trigger] s2.libs(i) == old(
                self,
            ).libs(i) by {
                assert(s1.libs(i) == old(self).libs(i));
            }
            assert(root_x as int == old(self).rep(x as int));
            assert(root_y as int == old(self).rep(y as int));
            assert(s2.rep(root_x as int) == root_x as int) by {
                assert(old(self).rep(old(self).rep(x as int)) == old(self).rep(x as int));
            }
            assert(s2.rep(root_y as int) == root_y as int);
        }
        if root_x == root_y {
            proof {
                assert forall|i: int|
                    0 <= i < old(self).count() implies #[trigger] self.libs(i) == old(self).libs(
                    i,
                ) by {}
            }
            return ;
        }
        let rx = self.rank[root_x];
        let ry = self.rank[root_y];
        let ghost before_graft = *self;
        if rx < ry {
            self.graft(root_x, root_y, x, y);
        } else if rx > ry {
            self.graft(root_y, root_x, x, y);
        } else {
            self.graft(root_y, root_x, x, y);
            let r0 = self.rank[root_x];
            let ghost pre_rank = *self;
            if r0 < usize::MAX {
                self.rank.set(root_x, r0 + 1);
            }
            proof {
                UnionFind::lemma_valid_rank_irrelevant(pre_rank, *self);
                assert forall|i: int|
                    0 <= i < self.count() implies #[trigger] self.rep(i) == pre_rank.rep(i) by {}
                assert forall|i: int|
                    0 <= i < self.count() implies #[trigger] self.libs(i) == pre_rank.libs(i) by {}
            }
        }
        proof {
            let b = *self;
            let a0 = *old(self);
            assert forall|i: int|
                0 <= i < a0.count() implies #[trigger] b.rep(i) == (if a0.rep(i) == root_x as int
                || a0.rep(i) == root_y as int {
                b.rep(x as int)
            } else {
                a0.rep(i)
            }) by {
                if rx < ry {
                    assert(b.rep(i) == (if s2.rep(i) == root_x as int {
                        root_y as int
                    } else {
                        s2.rep(i)
                    }));
                    assert(b.rep(x as int) == root_y as int);
                } else {
                    assert(b.rep(i) == (if s2.rep(i) == root_y as int {
                        root_x as int
                    } else {
                        s2.rep(i)
                    }));
                    assert(b.rep(x as int) == root_x as int);
                }
            }
            assert forall|i: int, j: int|
                #![trigger b.same(i, j)]
                0 <= i < a0.count() && 0 <= j < a0.count() implies (b.same(i, j) <==> (a0.same(i, j)
                    || (a0.same(i, x as int) && a0.same(j, y as int)) || (a0.same(i, y as int)
                    && a0.same(j, x as int)))) by {
                assert(b.rep(i) == (if a0.rep(i) == root_x as int || a0.rep(i) == root_y as int {
                    b.rep(x as int)
                } else {
                    a0.rep(i)
                }));
                assert(b.rep(j) == (if a0.rep(j) == root_x as int || a0.rep(j) == root_y as int {
                    b.rep(x as int)
                } else {
                    a0.rep(j)
                }));
                assert(a0.rep(a0.rep(i)) == a0.rep(i));
                assert(a0.rep(a0.rep(j)) == a0.rep(j));
                assert(0 <= a0.rep(i) < a0.count());
                assert(0 <= a0.rep(j) < a0.count());
            }
            assert forall|i: int|
                0 <= i < a0.count() implies #[trigger] b.libs(i) == (if a0.same(x as int, y as int) {
                a0.libs(i)
            } else if a0.same(i, x as int) || a0.same(i, y as int) {
                a0.libs(x as int).union(a0.libs(y as int)).remove(x).remove(y)
            } else {
                a0.libs(i)
            }) by {
                if rx < ry {
                    assert(b.libs(i) == (if s2.same(i, root_x as int) || s2.same(i, root_y as int) {
                        s2.libs(root_x as int).union(s2.libs(root_y as int)).remove(x).remove(y)
                    } else {
                        s2.libs(i)
                    }));
                    assert(s2.libs(root_x as int) == a0.libs(x as int));
                    assert(s2.libs(root_y as int) == a0.libs(y as int));
                } else {
                    assert(b.libs(i) == (if s2.same(i, root_y as int) || s2.same(i, root_x as int) {
                        s2.libs(root_y as int).union(s2.libs(root_x as int)).remove(x).remove(y)
                    } else {
                        s2.libs(i)
                    }));
                    assert(s2.libs(root_y as int) == a0.libs(y as int));
                    assert(s2.libs(root_x as int) == a0.libs(x as int));
                    assert(a0.libs(y as int).union(a0.libs(x as int)) =~= a0.libs(x as int).union(
                        a0.libs(y as int),
                    ));
                }
                assert(s2.libs(i) == a0.libs(i));
            }
        }
    }

    /// Shatter the group containing `index` back into isolated nodes with
    /// empty liberty sets, returning every member of the dissolved group.
    /// Used after a capture, so that the cleared positions can be played
    /// again with clean bookkeeping.
    #[verifier::rlimit(100)]
    #[verifier::spinoff_prover]
    pub fn dissolve_group(&mut self, index: usize) -> (members: Vec<usize>)
        requires
            old(self).valid(),
            index < old(self).count(),
        ensures
            final(self).valid(),
            final(self).count() == old(self).count(),
            members@.no_duplicates(),
            members@.to_set() == old(self).group(index as int),
            forall|k: int| 0 <= k < members@.len() ==> (#[trigger] members@[k]) < old(self).count(),
            forall|i: int|
                0 <= i < old(self).count() ==> #[trigger] final(self).rep(i) == (if old(self).same(
                    i,
                    index as int,
                ) {
                    i
                } else {
                    old(self).rep(i)
                }),
            forall|i: int|
                0 <= i < old(self).count() ==> #[trigger] final(self).libs(i) == (if old(self).same(
                    i,
                    index as int,
                ) {
                    Set::<usize>::empty()
                } else {
                    old(self).libs(i)
                }),
    {
        let root = self.find(index);
        let n = self.parent.len();
        let mut members: Vec<usize> = Vec::new();
        let mut i: usize = 0;
        while i < n
            invariant
                self.valid(),
                self.count() == old(self).count(),
                n == old(self).count(),
                index < n,
                root < n,
                root as int == old(self).rep(index as int),
                forall|q: int| 0 <= q < n ==> #[trigger] self.rep(q) == old(self).rep(q),
                self.liberties@ == old(self).liberties@,
                self.size@ == old(self).size@,
                i <= n,
                members@.no_duplicates(),
                forall|k: int| 0 <= k < members@.len() ==> (#[trigger] members@[k]) < i,
                forall|q: usize|
                    #[trigger] members@.to_set().contains(q) <==> (q < i && old(self).rep(q as int)
                        == root as int),
            decreases n - i,
        {
            let ghost pre = *self;
            let ghost mpre = members@;
            let r = self.find(i);
            proof {
                assert forall|q: int| 0 <= q < n implies #[trigger] self.rep(q) == old(self).rep(
                    q,
                ) by {
                    assert(pre.rep(q) == old(self).rep(q));
                }
                assert(r as int == old(self).rep(i as int));
            }
            if r == root {
                members.push(i);
                proof {
                    crate::liberties::lemma_to_set_push(mpre, i);
                    assert forall|k1: int, k2: int|
                        0 <= k1 < k2 < members@.len() implies members@[k1] != members@[k2] by {
                        if k2 == members@.len() - 1 {
                            assert(members@[k1] == mpre[k1]);
                            assert(mpre[k1] < i);
                        } else {
                            assert(members@[k1] == mpre[k1]);
                            assert(members@[k2] == mpre[k2]);
                        }
                    }
                    assert(members@.no_duplicates());
                }
            }
            i += 1;
        }
        let ghost snap = *self;
        proof {
            assert forall|q: int| 0 <= q < n implies #[trigger] snap.libs(q) == old(self).libs(
                q,
            ) by {}
        }
        let mut k: usize = 0;
        while k < members.len()
            invariant
                snap.valid(),
                n == snap.count(),
                root < n,
                k <= members@.len(),
                members@.no_duplicates(),
                forall|kk: int| 0 <= kk < members@.len() ==> (#[trigger] members@[kk]) < n,
                forall|q: usize|
                    #[trigger] members@.to_set().contains(q) <==> (q < n && snap.rep(q as int)
                        == root as int),
                self.parent@.len() == n,
                self.rank@.len() == n,
                self.size@.len() == n,
                self.liberties@.len() == n,
                self.repr@ == snap.repr@,
                self.depth@ == snap.depth@,
                forall|j: int|
                    0 <= j < n && !members@.take(k as int).to_set().contains(j as usize) ==> (
                    #[trigger] self.parent@[j]) == snap.parent@[j] && self.rank@[j]
                        == snap.rank@[j] && self.size@[j] == snap.size@[j] && self.liberties@[j]
                        == snap.liberties@[j],
                forall|kk: int|
                    0 <= kk < k ==> (#[trigger] self.parent@[members@[kk] as int]) as int
                        == members@[kk] as int,
                forall|kk: int| 0 <= kk < k ==> (#[trigger] self.size@[members@[kk] as int]) == 1,
                forall|kk: int|
                    0 <= kk < k ==> (#[trigger] self.liberties@[members@[kk] as int]).wf()
                        && self.liberties@[members@[kk] as int]@ == Set::<usize>::empty(),
            decreases members@.len() - k,
        {
            let ghost fpre = *self;
            let m = members[k];
            proof {
                assert forall|j: int|
                    0 <= j < n && !members@.take(k as int).to_set().contains(
                        j as usize,
                    ) implies (#[trigger] fpre.parent@[j]) == snap.parent@[j] && fpre.rank@[j]
                    == snap.rank@[j] && fpre.size@[j] == snap.size@[j] && fpre.liberties@[j]
                    == snap.liberties@[j] by {}
            }
            self.parent.set(m, m);
            self.rank.set(m, 0);
            self.size.set(m, 1);
            self.liberties.push(Liberties::new());
            let dropped = self.liberties.swap_remove(m);
            proof {
                assert(members@.take(k as int + 1) =~= members@.take(k as int).push(m));
                crate::liberties::lemma_to_set_push(members@.take(k as int), m);
                assert(self.liberties@ =~= fpre.liberties@.update(
                    m as int,
                    self.liberties@[m as int],
                ));
                assert forall|j: int|
                    0 <= j < n && !members@.take(k as int + 1).to_set().contains(
                        j as usize,
                    ) implies (#[trigger] self.parent@[j]) == snap.parent@[j] && self.rank@[j]
                    == snap.rank@[j] && self.size@[j] == snap.size@[j] && self.liberties@[j]
                    == snap.liberties@[j] by {
                    assert(j != m as int);
                    assert(!members@.take(k as int).to_set().contains(j as usize));
                    assert(fpre.parent@[j] == snap.parent@[j]);
                    assert(fpre.rank@[j] == snap.rank@[j]);
                    assert(fpre.size@[j] == snap.size@[j]);
                    assert(fpre.liberties@[j] == snap.liberties@[j]);
                }
            }
            k += 1;
        }
        proof {
            assert(members@.take(members@.len() as int) =~= members@);
        }
        self.repr = Ghost(
            Seq::new(
                n as nat,
                |j: int|
                    if snap.repr@[j] == root {
                        j as usize
                    } else {
                        snap.repr@[j]
                    },
            ),
        );
        self.depth = Ghost(
            Seq::new(
                n as nat,
                |j: int|
                    if snap.repr@[j] == root {
                        0nat
                    } else {
                        snap.depth@[j]
                    },
            ),
        );
        proof {
            let a = snap;
            let b = *self;
            assert(a.rep(root as int) == root as int) by {
                assert(a.rep(a.rep(index as int)) == a.rep(index as int));
                assert(a.rep(index as int) == root as int);
            }
            assert forall|j: int|
                0 <= j < n && a.rep(j) == root as int implies (#[trigger] b.parent@[j]) as int == j
                    && b.size@[j] == 1 && b.liberties@[j].wf() && b.liberties@[j]@
                    == Set::<usize>::empty() by {
                assert(members@.to_set().contains(j as usize));
                assert(members@.contains(j as usize));
                let kk = choose|kk: int|
                    0 <= kk < members@.len() && members@[kk] == j as usize;
                assert(b.parent@[members@[kk] as int] as int == members@[kk] as int);
                assert(b.size@[members@[kk] as int] == 1);
                assert(b.liberties@[members@[kk] as int].wf() && b.liberties@[members@[kk] as int]@
                    == Set::<usize>::empty());
            }
            assert forall|j: int|
                0 <= j < n && a.rep(j) != root as int implies (#[trigger] b.parent@[j])
                    == a.parent@[j] && b.rank@[j] == a.rank@[j] && b.size@[j] == a.size@[j]
                    && b.liberties@[j] == a.liberties@[j] by {
                assert(!members@.to_set().contains(j as usize));
            }
            assert forall|j: int| 0 <= j < n implies #[trigger] b.rep(j) == (if a.rep(j) == root
                as int {
                j
            } else {
                a.rep(j)
            }) by {}
            assert forall|j: int| 0 <= j < b.count() implies (#[trigger] b.parent@[j])
                < b.count() by {
                if a.rep(j) != root as int {
                    assert(a.parent@[j] < a.count());
                }
            }
            assert forall|j: int| 0 <= j < b.count() implies 0 <= #[trigger] b.rep(j)
                < b.count() by {
                assert(0 <= a.rep(j) < a.count());
            }
            assert forall|j: int| 0 <= j < b.count() implies #[trigger] b.rep(b.rep(j)) == b.rep(
                j,
            ) by {
                assert(a.rep(a.rep(j)) == a.rep(j));
                if a.rep(j) != root as int {
                    assert(a.rep(j) != root as int);
                }
            }
            assert forall|j: int|
                0 <= j < b.count() implies #[trigger] b.rep(b.parent@[j] as int) == b.rep(j) by {
                if a.rep(j) == root as int {
                    assert(b.parent@[j] as int == j);
                } else {
                    assert(b.parent@[j] == a.parent@[j]);
                    assert(a.rep(a.parent@[j] as int) == a.rep(j));
                }
            }
            assert forall|j: int|
                0 <= j < b.count() implies ((#[trigger] b.parent@[j]) as int == j <==> b.rep(j)
                == j) by {
                if a.rep(j) == root as int {
                } else {
                    assert(b.parent@[j] == a.parent@[j]);
                    assert((a.parent@[j] as int == j) <==> a.rep(j) == j);
                }
            }
            assert forall|j: int|
                0 <= j < b.count() && (#[trigger] b.parent@[j]) as int
                    != j implies b.depth@[b.parent@[j] as int] < b.depth@[j] by {
                assert(b.parent@[j] == a.parent@[j]);
                let pj = a.parent@[j] as int;
                assert(a.depth@[pj] < a.depth@[j]);
                assert(a.rep(pj) == a.rep(j));
            }
            assert forall|j: int| 0 <= j < b.count() implies (#[trigger] b.liberties@[j]).wf() by {
                if a.rep(j) != root as int {
                    assert(b.parent@[j] == a.parent@[j]);
                    assert(b.liberties@[j] == a.liberties@[j]);
                    assert(a.liberties@[j].wf());
                } else {
                    assert((#[trigger] b.parent@[j]) as int == j);
                }
            }
            assert forall|j: int|
                0 <= j < b.count() && b.rep(j) != j implies (#[trigger] b.liberties@[j])@
                == Set::<usize>::empty() by {
                if a.rep(j) != root as int {
                    assert(b.parent@[j] == a.parent@[j]);
                    assert(b.liberties@[j] == a.liberties@[j]);
                    assert(a.rep(j) != j ==> a.liberties@[j]@ == Set::<usize>::empty());
                } else {
                    assert((#[trigger] b.parent@[j]) as int == j);
                }
            }
            assert forall|j: int|
                0 <= j < b.count() && b.rep(j) == j implies (#[trigger] b.size@[j]) == b.group(
                j,
            ).len() by {
                if a.rep(j) == root as int {
                    assert((#[trigger] b.parent@[j]) as int == j);
                    assert(b.size@[j] == 1);
                    assert(b.group(j) =~= Set::<usize>::empty().insert(j as usize)) by {
                        assert forall|q: usize| b.group(j).contains(q) implies q == j as usize by {
                            if a.rep(q as int) == root as int {
                            } else {
                                assert(b.rep(q as int) == a.rep(q as int));
                                assert(a.rep(a.rep(q as int)) == a.rep(q as int));
                            }
                        }
                    }
                } else {
                    assert(a.rep(j) == j);
                    assert(b.parent@[j] == a.parent@[j]);
                    assert(b.size@[j] == a.size@[j]);
                    assert(a.size@[j] == a.group(j).len());
                    assert(b.group(j) =~= a.group(j)) by {
                        assert forall|q: usize|
                            q < n implies (b.group(j).contains(q) <==> a.group(j).contains(q)) by {
                            if a.rep(q as int) == root as int {
                                assert(b.rep(q as int) == q as int);
                            }
                        }
                    }
                }
            }
            assert(b.valid());
            assert(members@.to_set() =~= old(self).group(index as int)) by {
                assert forall|q: usize|
                    members@.to_set().contains(q) implies old(self).group(index as int).contains(
                    q,
                ) by {}
                assert forall|q: usize|
                    old(self).group(index as int).contains(q) implies members@.to_set().contains(
                    q,
                ) by {
                    assert(a.rep(q as int) == old(self).rep(q as int));
                }
            }
            assert forall|i2: int|
                0 <= i2 < old(self).count() implies #[trigger] b.rep(i2) == (if old(self).same(
                i2,
                index as int,
            ) {
                i2
            } else {
                old(self).rep(i2)
            }) by {
                assert(a.rep(i2) == old(self).rep(i2));
            }
            assert forall|i2: int|
                0 <= i2 < old(self).count() implies #[trigger] b.libs(i2) == (if old(self).same(
                i2,
                index as int,
            ) {
                Set::<usize>::empty()
            } else {
                old(self).libs(i2)
            }) by {
                assert(a.rep(i2) == old(self).rep(i2));
                assert(a.libs(i2) == old(self).libs(i2));
                if old(self).same(i2, index as int) {
                    assert(b.rep(i2) == i2);
                    assert(a.rep(i2) == root as int);
                    assert((b.parent@[i2]) as int == i2);
                    assert(b.liberties@[i2]@ == Set::<usize>::empty());
                } else {
                    assert(b.rep(i2) == a.rep(i2));
                    assert(a.rep(a.rep(i2)) == a.rep(i2));
                    assert(a.rep(i2) != root as int);
                    assert(b.parent@[a.rep(i2)] == a.parent@[a.rep(i2)]);
                    assert(b.liberties@[a.rep(i2)] == a.liberties@[a.rep(i2)]);
                    assert(b.liberties@[b.rep(i2)] == a.liberties@[a.rep(i2)]);
                }
            }
        }
        members
    }

    /// Restating well-formedness after a change that only touches ranks.
    proof fn lemma_valid_rank_irrelevant(a: UnionFind, b: UnionFind)
        requires
            a.valid(),
            b.parent@ == a.parent@,
            b.rank@.len() == a.rank@.len(),
            b.size@ == a.size@,
            b.liberties@ == a.liberties@,
            b.repr@ == a.repr@,
            b.depth@ == a.depth@,
        ensures
            b.valid(),
    {
        assert forall|i: int| 0 <= i < b.count() implies (#[trigger] b.parent@[i]) < b.count() by {
            assert(a.parent@[i] < a.count());
        }
        assert forall|i: int| 0 <= i < b.count() implies 0 <= #[trigger] b.rep(i) < b.count() by {
            assert(0 <= a.rep(i) < a.count());
        }
        assert forall|i: int| 0 <= i < b.count() implies #[trigger] b.rep(b.rep(i)) == b.rep(i) by {
            assert(a.rep(a.rep(i)) == a.rep(i));
        }
        assert forall|i: int|
            0 <= i < b.count() implies #[trigger] b.rep(b.parent@[i] as int) == b.rep(i) by {
            assert(a.rep(a.parent@[i] as int) == a.rep(i));
        }
        assert forall|i: int|
            0 <= i < b.count() implies ((#[trigger] b.parent@[i]) as int == i <==> b.rep(i)
            == i) by {
            assert((a.parent@[i] as int == i) <==> a.rep(i) == i);
        }
        assert forall|i: int|
            0 <= i < b.count() && (#[trigger] b.parent@[i]) as int != i implies b.depth@[b.parent@[i] as int]
            < b.depth@[i] by {
            assert(a.depth@[a.parent@[i] as int] < a.depth@[i]);
        }
        assert forall|i: int| 0 <= i < b.count() implies (#[trigger] b.liberties@[i]).wf() by {
            assert(a.liberties@[i].wf());
        }
        assert forall|i: int|
            0 <= i < b.count() && b.rep(i) != i implies (#[trigger] b.liberties@[i])@
            == Set::<usize>::empty() by {
            assert(a.rep(i) != i ==> a.liberties@[i]@ == Set::<usize>::empty());
        }
        UnionFind::lemma_partition_eq(a, b);
        assert forall|i: int|
            0 <= i < b.count() && b.rep(i) == i implies (#[trigger] b.size@[i]) == b.group(
            i,
        ).len() by {
            assert(a.size@[i] == a.group(i).len());
            assert(a.group(i) == b.group(i));
        }
        assert(b.valid());
    }

    /// Populate the liberty set of a freshly placed, still isolated stone.
    /// Called exactly once per position, before any union involving it; a
    /// call on a position whose liberty set is already non-empty signals an
    /// internal-invariant error and changes nothing.
    pub fn initialize_liberties_of_pos(
        &mut self,
        index: usize,
        libs: Vec<usize>,
    ) -> (res: Result<(), GoError>)
        requires
            old(self).valid(),
            index < old(self).count(),
            old(self).rep(index as int) == index as int,
        ensures
            final(self).valid(),
            final(self).count() == old(self).count(),
            forall|i: int|
                0 <= i < old(self).count() ==> #[trigger] final(self).rep(i) == old(self).rep(i),
            forall|i: int|
                0 <= i < old(self).count() ==> #[trigger] final(self).group(i) == old(self).group(
                    i,
                ),
            final(self).size@ == old(self).size@,
            res is Ok ==> old(self).libs(index as int).is_empty(),
            res is Ok ==> forall|i: int|
                0 <= i < old(self).count() ==> #[trigger] final(self).libs(i) == (if old(
                    self,
                ).same(i, index as int) {
                    libs@.to_set()
                } else {
                    old(self).libs(i)
                }),
            final(self).parent@ == old(self).parent@,
            final(self).rank@ == old(self).rank@,
            res is Err ==> res == Result::<(), GoError>::Err(GoError::InternalInvariant) && !old(
                self,
            ).libs(index as int).is_empty() && *final(self) == *old(self),
    {
        if !self.liberties[index].is_empty() {
            return Err(GoError::InternalInvariant);
        }
        let ghost n = old(self).count();
        let mut k: usize = 0;
        while k < libs.len()
            invariant
                old(self).valid(),
                index < n,
                n == old(self).count(),
                old(self).rep(index as int) == index as int,
                k <= libs@.len(),
                self.parent@ == old(self).parent@,
                self.rank@ == old(self).rank@,
                self.size@ == old(self).size@,
                self.repr@ == old(self).repr@,
                self.depth@ == old(self).depth@,
                self.liberties@.len() == old(self).liberties@.len(),
                self.liberties@[index as int].wf(),
                self.liberties@[index as int]@ == libs@.take(k as int).to_set(),
                forall|i: int|
                    0 <= i < self.liberties@.len() && i != index ==> #[trigger] self.liberties@[i]
                        == old(self).liberties@[i],
            decreases libs@.len() - k,
        {
            let x = libs[k];
            let slot = &mut self.liberties[index];
            slot.insert(x);
            proof {
                assert(libs@.take(k as int + 1) =~= libs@.take(k as int).push(x));
                crate::liberties::lemma_to_set_push(libs@.take(k as int), x);
            }
            k += 1;
        }
        proof {
            assert(libs@.take(libs@.len() as int) =~= libs@);
            assert(self.liberties@ =~= old(self).liberties@.update(
                index as int,
                self.liberties@[index as int],
            ));
            UnionFind::lemma_valid_after_lib_update(*old(self), *self, index as int);
        }
        Ok(())
    }

    /// Remove `perpetrator` from the liberty set of the group containing
    /// `victim`, as when an opposing stone fills that position.
    pub fn remove_liberty_from_chain(&mut self, victim: usize, perpetrator: usize)
        requires
            old(self).valid(),
            victim < old(self).count(),
        ensures
            final(self).valid(),
            final(self).count() == old(self).count(),
            forall|i: int|
                0 <= i < old(self).count() ==> #[trigger] final(self).rep(i) == old(self).rep(i),
            forall|i: int|
                0 <= i < old(self).count() ==> #[trigger] final(self).group(i) == old(self).group(
                    i,
                ),
            final(self).size@ == old(self).size@,
            forall|i: int|
                0 <= i < old(self).count() ==> #[trigger] final(self).libs(i) == (if old(
                    self,
                ).same(i, victim as int) {
                    old(self).libs(victim as int).remove(perpetrator)
                } else {
                    old(self).libs(i)
                }),
            final(self).rank@ == old(self).rank@,
    {
        let root = self.find(victim);
        let ghost mid = *self;
        let slot = &mut self.liberties[root];
        slot.remove(perpetrator);
        proof {
            assert(self.rep(root as int) == root as int);
            assert(mid.liberties@[root as int].wf());
            assert(self.liberties@ =~= mid.liberties@.update(
                root as int,
                self.liberties@[root as int],
            ));
            UnionFind::lemma_valid_after_lib_update(mid, *self, root as int);
            assert forall|i: int|
                0 <= i < old(self).count() implies #[trigger] self.rep(i) == old(self).rep(i) by {
                assert(mid.rep(i) == old(self).rep(i));
                assert(self.rep(i) == mid.rep(i));
            }
            assert forall|i: int|
                0 <= i < old(self).count() implies #[trigger] self.group(i) == old(self).group(
                i,
            ) by {
                assert(mid.group(i) == old(self).group(i));
                assert(self.group(i) == mid.group(i));
            }
            assert forall|i: int|
                0 <= i < old(self).count() implies #[trigger] self.libs(i) == (if old(self).same(
                i,
                victim as int,
            ) {
                old(self).libs(victim as int).remove(perpetrator)
            } else {
                old(self).libs(i)
            }) by {
                assert(mid.rep(i) == old(self).rep(i));
                assert(mid.libs(i) == old(self).libs(i));
                assert(self.libs(i) == (if mid.same(i, root as int) {
                    self.liberties@[root as int]@
                } else {
                    mid.libs(i)
                }));
                if old(self).same(i, victim as int) {
                    assert(mid.libs(victim as int) == old(self).libs(victim as int));
                }
            }
        }
    }
}

} // verus!
