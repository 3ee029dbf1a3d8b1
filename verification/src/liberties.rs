//! A small set of board positions (flat indices), used by the tracker to
//! hold the liberties of a stone group. Stored as a duplicate-free vector
//! and viewed as a mathematical set.

use vstd::prelude::*;
use vstd::seq_lib::*;

verus! {

#[derive(Debug)]
pub struct Liberties {
    items: Vec<usize>,
}

impl View for Liberties {
    type V = Set<usize>;

    closed spec fn view(&self) -> Set<usize> {
        self.items@.to_set()
    }
}

impl Liberties {
    /// Internal shape: no position is stored twice.
    pub closed spec fn wf(self) -> bool {
        self.items@.no_duplicates()
    }

    pub fn new() -> (r: Self)
        ensures
            r.wf(),
            r@ == Set::<usize>::empty(),
    {
        let r = Liberties { items: Vec::new() };
        proof {
            assert(r.items@.to_set() =~= Set::<usize>::empty());
        }
        r
    }

    pub fn contains(&self, x: usize) -> (r: bool)
        ensures
            r == self@.contains(x),
    {
        let mut i: usize = 0;
        while i < self.items.len()
            invariant
                i <= self.items@.len(),
                forall|j: int| 0 <= j < i ==> self.items@[j] != x,
            decreases self.items@.len() - i,
        {
            if self.items[i] == x {
                assert(self.items@.contains(x));
                return true;
            }
            i += 1;
        }
        assert(!self.items@.contains(x));
        false
    }

    pub fn len(&self) -> (r: usize)
        requires
            self.wf(),
        ensures
            r == self@.len(),
    {
        proof {
            self.items@.unique_seq_to_set();
        }
        self.items.len()
    }

    pub fn is_empty(&self) -> (r: bool)
        ensures
            r == self@.is_empty(),
    {
        proof {
            if self.items@.len() == 0 {
                assert(self.items@.to_set() =~= Set::<usize>::empty());
            } else {
                assert(self.items@.to_set().contains(self.items@[0]));
            }
        }
        self.items.len() == 0
    }

    pub fn insert(&mut self, x: usize)
        requires
            old(self).wf(),
        ensures
            final(self).wf(),
            final(self)@ == old(self)@.insert(x),
    {
        if !self.contains(x) {
            self.items.push(x);
            proof {
                assert(self.items@.drop_last() =~= old(self).items@);
                assert(self.items@.to_set() =~= old(self).items@.to_set().insert(x)) by {
                    assert forall|y: usize| self.items@.to_set().contains(y) implies old(
                        self,
                    ).items@.to_set().insert(x).contains(y) by {
                        let k = choose|k: int| 0 <= k < self.items@.len() && self.items@[k] == y;
                        if k < old(self).items@.len() {
                            assert(old(self).items@[k] == y);
                        }
                    }
                    assert forall|y: usize|
                        old(self).items@.to_set().insert(x).contains(y) implies self.items@.to_set().contains(
                        y,
                    ) by {
                        if y == x {
                            assert(self.items@[self.items@.len() - 1] == x);
                        } else {
                            let k = choose|k: int|
                                0 <= k < old(self).items@.len() && old(self).items@[k] == y;
                            assert(self.items@[k] == y);
                        }
                    }
                }
            }
        } else {
            proof {
                assert(self.items@.to_set() =~= old(self).items@.to_set().insert(x));
            }
        }
    }

    pub fn remove(&mut self, x: usize)
        requires
            old(self).wf(),
        ensures
            final(self).wf(),
            final(self)@ == old(self)@.remove(x),
    {
        let mut i: usize = 0;
        while i < self.items.len()
            invariant
                self.items@ == old(self).items@,
                self.items@.no_duplicates(),
                i <= self.items@.len(),
                forall|j: int| 0 <= j < i ==> self.items@[j] != x,
            decreases self.items@.len() - i,
        {
            if self.items[i] == x {
                let ghost pre = self.items@;
                self.items.swap_remove(i);
                proof {
                    let post = self.items@;
                    assert(pre.no_duplicates());
                    assert(pre[i as int] == x);
                    assert forall|y: usize| post.to_set().contains(y) implies pre.to_set().remove(
                        x,
                    ).contains(y) by {
                        let k = choose|k: int| 0 <= k < post.len() && post[k] == y;
                        if k == i {
                            assert(pre[pre.len() - 1] == y);
                            assert(y != x || pre.len() - 1 == i);
                        } else {
                            assert(pre[k] == y);
                            assert(y != x);
                        }
                    }
                    assert forall|y: usize| pre.to_set().remove(x).contains(y) implies post.to_set().contains(
                        y,
                    ) by {
                        let k = choose|k: int| 0 <= k < pre.len() && pre[k] == y;
                        assert(k != i);
                        if k == pre.len() - 1 {
                            assert(post[i as int] == y);
                        } else {
                            assert(post[k] == y);
                        }
                    }
                    assert(post.to_set() =~= pre.to_set().remove(x));
                    assert forall|a: int, b: int|
                        0 <= a < b < post.len() implies post[a] != post[b] by {
                        if a == i {
                            assert(post[a] == pre[pre.len() - 1]);
                            assert(post[b] == pre[b]);
                        } else {
                            assert(post[a] == pre[a]);
                        }
                    }
                }
                return ;
            }
            i += 1;
        }
        proof {
            assert(!self.items@.to_set().contains(x));
            assert(self.items@.to_set() =~= old(self).items@.to_set().remove(x));
        }
    }

    /// Move every position of `other` into this set (set union).
    pub fn absorb(&mut self, other: Liberties)
        requires
            old(self).wf(),
        ensures
            final(self).wf(),
            final(self)@ == old(self)@.union(other@),
    {
        let mut rest = other.items;
        let ghost total = rest@.to_set();
        let ghost done = Set::<usize>::empty();
        proof {
            assert(done.union(rest@.to_set()) =~= total);
        }
        while rest.len() > 0
            invariant
                self.wf(),
                self@ == old(self)@.union(done),
                done.union(rest@.to_set()) == total,
            decreases rest@.len(),
        {
            let ghost pre = rest@;
            let ghost done0 = done;
            let x = rest.pop().unwrap();
            self.insert(x);
            proof {
                done = done.insert(x);
                assert(pre[pre.len() - 1] == x);
                assert(pre.drop_last() =~= rest@);
                assert(self@ =~= old(self)@.union(done));
                assert(done.union(rest@.to_set()) =~= total) by {
                    assert forall|y: usize| done.union(rest@.to_set()).contains(y) implies total.contains(
                        y,
                    ) by {
                        if y == x {
                            assert(pre.to_set().contains(y));
                        } else if done0.contains(y) {
                            assert(done0.union(pre.to_set()).contains(y));
                        } else {
                            let k = choose|k: int| 0 <= k < rest@.len() && rest@[k] == y;
                            assert(pre[k] == y);
                            assert(pre.to_set().contains(y));
                        }
                        assert(done0.union(pre.to_set()).contains(y));
                    }
                    assert forall|y: usize| total.contains(y) implies done.union(
                        rest@.to_set(),
                    ).contains(y) by {
                        if done0.contains(y) {
                        } else {
                            let k = choose|k: int| 0 <= k < pre.len() && pre[k] == y;
                            if k == pre.len() - 1 {
                                assert(y == x);
                            } else {
                                assert(rest@[k] == y);
                                assert(rest@.to_set().contains(y));
                            }
                        }
                    }
                }
            }
        }
        proof {
            assert(rest@.to_set() =~= Set::<usize>::empty());
            assert(done =~= total);
            assert(self@ =~= old(self)@.union(other@));
        }
    }

}

/// Pushing one position onto a stored sequence inserts it into the viewed set.
pub proof fn lemma_to_set_push(s: Seq<usize>, x: usize)
    ensures
        s.push(x).to_set() == s.to_set().insert(x),
{
    assert forall|y: usize| s.push(x).to_set().contains(y) implies s.to_set().insert(x).contains(
        y,
    ) by {
        let k = choose|k: int| 0 <= k < s.push(x).len() && s.push(x)[k] == y;
        if k < s.len() {
            assert(s[k] == y);
        }
    }
    assert forall|y: usize| s.to_set().insert(x).contains(y) implies s.push(x).to_set().contains(
        y,
    ) by {
        if y == x {
            assert(s.push(x)[s.len() as int] == y);
        } else {
            let k = choose|k: int| 0 <= k < s.len() && s[k] == y;
            assert(s.push(x)[k] == y);
        }
    }
    assert(s.push(x).to_set() =~= s.to_set().insert(x));
}

} // verus!
