//! Union–find table over densely numbered slots.
//!
//! One slot per token. The table is a parent-pointer forest in which every
//! pointer goes to a slot with a smaller or equal index, so every chain of
//! parents reaches a root. Two slots are in the same equivalence class
//! exactly when they reach the same root.

use vstd::prelude::*;

verus! {

/// The forest invariant: every parent pointer goes downward (or is a
/// self-loop, which marks a root).
pub open spec fn uf_wf(p: Seq<usize>) -> bool {
    forall|i: int| 0 <= i < p.len() ==> (#[trigger] p[i] as int) <= i
}

/// The root reached from slot `i` by following parent pointers.
pub open spec fn root_of(p: Seq<usize>, i: int) -> int
    decreases i,
{
    if 0 <= i < p.len() && (p[i] as int) < i {
        root_of(p, p[i] as int)
    } else {
        i
    }
}

/// Same-class relation: two slots are unioned when they share a root.
pub open spec fn same_root(p: Seq<usize>, a: int, b: int) -> bool {
    root_of(p, a) == root_of(p, b)
}

/// Number of equivalence classes: the number of self-looping slots.
pub open spec fn count_roots(p: Seq<usize>) -> nat
    decreases p.len(),
{
    if p.len() == 0 {
        0
    } else {
        count_roots(p.drop_last()) + (if (p[p.len() - 1] as int) == p.len() - 1 {
            1nat
        } else {
            0nat
        })
    }
}

/// A root is reached from every slot: it lies in range, below the start,
/// and is a self-loop.
pub proof fn lemma_root_props(p: Seq<usize>, i: int)
    requires
        uf_wf(p),
        0 <= i < p.len(),
    ensures
        0 <= root_of(p, i) <= i,
        root_of(p, i) < p.len(),
        p[root_of(p, i)] as int == root_of(p, i),
    decreases i,
{
    if (p[i] as int) < i {
        lemma_root_props(p, p[i] as int);
    }
}

/// Appending a fresh self-looping slot does not change any existing root.
pub proof fn lemma_root_push(p: Seq<usize>, x: usize, i: int)
    requires
        uf_wf(p),
        x as int == p.len(),
        0 <= i < p.len(),
    ensures
        root_of(p.push(x), i) == root_of(p, i),
    decreases i,
{
    if (p[i] as int) < i {
        lemma_root_push(p, x, p[i] as int);
    }
}

/// Redirecting the root `r2` to a smaller slot `r1` reroutes exactly the
/// slots whose root was `r2`; every other root is unchanged.
pub proof fn lemma_root_update(p: Seq<usize>, r2: int, r1: usize, i: int)
    requires
        uf_wf(p),
        0 <= r2 < p.len(),
        p[r2] as int == r2,
        (r1 as int) < r2,
        0 <= i < p.len(),
    ensures
        uf_wf(p.update(r2, r1)),
        root_of(p.update(r2, r1), i) == if root_of(p, i) == r2 {
            root_of(p, r1 as int)
        } else {
            root_of(p, i)
        },
    decreases i,
{
    let q = p.update(r2, r1);
    assert forall|k: int| 0 <= k < q.len() implies (#[trigger] q[k] as int) <= k by {
        if k != r2 {
            assert(q[k] == p[k]);
        }
    }
    if i == r2 {
        lemma_root_update(p, r2, r1, r1 as int);
        lemma_root_props(p, r1 as int);
    } else {
        if (p[i] as int) < i {
            lemma_root_update(p, r2, r1, p[i] as int);
        }
    }
}

/// Redirecting a root away from itself removes exactly one class.
pub proof fn lemma_count_update(p: Seq<usize>, r2: int, r1: usize)
    requires
        0 <= r2 < p.len(),
        p[r2] as int == r2,
        (r1 as int) != r2,
    ensures
        count_roots(p.update(r2, r1)) + 1 == count_roots(p),
    decreases p.len(),
{
    let q = p.update(r2, r1);
    if r2 == p.len() - 1 {
        assert(q.drop_last() =~= p.drop_last());
    } else {
        assert(q.drop_last() =~= p.drop_last().update(r2, r1));
        lemma_count_update(p.drop_last(), r2, r1);
    }
}

/// Union–find table with one slot per token.
pub struct UnionTable {
    pub parent: Vec<usize>,
}

impl UnionTable {
    pub open spec fn wf(&self) -> bool {
        uf_wf(self.parent@)
    }

    pub open spec fn len_spec(&self) -> nat {
        self.parent@.len()
    }

    pub open spec fn same(&self, a: int, b: int) -> bool {
        same_root(self.parent@, a, b)
    }

    pub fn new() -> (t: UnionTable)
        ensures
            t.wf(),
            t.len_spec() == 0,
    {
        UnionTable { parent: Vec::new() }
    }

    /// Allocate a fresh slot at the next dense index; it forms a new
    /// singleton class and no existing class changes.
    pub fn new_key(&mut self) -> (t: usize)
        requires
            old(self).wf(),
        ensures
            final(self).wf(),
            t as int == old(self).len_spec(),
            final(self).len_spec() == old(self).len_spec() + 1,
            final(self).parent@ == old(self).parent@.push(t),
            forall|a: int, b: int|
                0 <= a < old(self).len_spec() && 0 <= b < old(self).len_spec() ==> (final(self).same(a, b) == old(self).same(a, b)),
            forall|a: int|
                0 <= a < old(self).len_spec() ==> root_of(final(self).parent@, a) == root_of(
                    old(self).parent@,
                    a,
                ),
    {
        let t = self.parent.len();
        self.parent.push(t);
        proof {
            assert forall|a: int| 0 <= a < old(self).len_spec() implies root_of(self.parent@, a)
                == root_of(old(self).parent@, a) by {
                lemma_root_push(old(self).parent@, t, a);
            }
        }
        t
    }

    /// Follow parent pointers to the class root.
    pub fn find(&self, u: usize) -> (r: usize)
        requires
            self.wf(),
            (u as int) < self.len_spec(),
        ensures
            r as int == root_of(self.parent@, u as int),
    {
        let mut cur = u;
        while self.parent[cur] != cur
            invariant
                self.wf(),
                (cur as int) < self.len_spec(),
                root_of(self.parent@, cur as int) == root_of(self.parent@, u as int),
            decreases cur,
        {
            cur = self.parent[cur];
        }
        cur
    }

    /// Same-class test.
    pub fn unioned(&self, u: usize, v: usize) -> (r: bool)
        requires
            self.wf(),
            (u as int) < self.len_spec(),
            (v as int) < self.len_spec(),
        ensures
            r == self.same(u as int, v as int),
    {
        self.find(u) == self.find(v)
    }

    /// Merge the classes of `u` and `v`. The resulting relation is the
    /// smallest one that contains the old relation and equates `u` with
    /// `v`; merging two distinct classes removes exactly one class.
    pub fn union(&mut self, u: usize, v: usize)
        requires
            old(self).wf(),
            (u as int) < old(self).len_spec(),
            (v as int) < old(self).len_spec(),
        ensures
            final(self).wf(),
            final(self).len_spec() == old(self).len_spec(),
            final(self).same(u as int, v as int),
            forall|a: int, b: int|
                0 <= a < final(self).len_spec() && 0 <= b < final(self).len_spec() ==> (final(self).same(a, b) <==> (old(self).same(a, b) || (old(self).same(a, u as int) && old(self).same(b, v as int)) || (old(self).same(a, v as int) && old(self).same(
                    b,
                    u as int,
                )))),
            old(self).same(u as int, v as int) ==> *final(self) == *old(self),
            !old(self).same(u as int, v as int) ==> count_roots(final(self).parent@) + 1
                == count_roots(old(self).parent@),
            count_roots(final(self).parent@) <= count_roots(old(self).parent@),
    {
        let ru = self.find(u);
        let rv = self.find(v);
        proof {
            lemma_root_props(self.parent@, u as int);
            lemma_root_props(self.parent@, v as int);
        }
        if ru == rv {
            return ;
        }
        let hi: usize = if ru < rv {
            rv
        } else {
            ru
        };
        let lo: usize = if ru < rv {
            ru
        } else {
            rv
        };
        self.parent[hi] = lo;
        proof {
            let p = old(self).parent@;
            let q = self.parent@;
            assert(q == p.update(hi as int, lo));
            assert(p[hi as int] as int == hi as int);
            assert(p[lo as int] as int == lo as int);
            assert(root_of(p, lo as int) == lo as int);
            assert forall|a: int| 0 <= a < p.len() implies root_of(q, a) == (if root_of(p, a)
                == hi as int {
                lo as int
            } else {
                root_of(p, a)
            }) by {
                lemma_root_update(p, hi as int, lo, a);
            }
            lemma_root_update(p, hi as int, lo, lo as int);
            lemma_count_update(p, hi as int, lo);
            assert forall|a: int, b: int|
                0 <= a < q.len() && 0 <= b < q.len() implies (same_root(q, a, b) <==> (same_root(
                p,
                a,
                b,
            ) || (same_root(p, a, u as int) && same_root(p, b, v as int)) || (same_root(
                p,
                a,
                v as int,
            ) && same_root(p, b, u as int)))) by {
                lemma_root_props(p, a);
                lemma_root_props(p, b);
            }
        }
    }
}

} // verus!
