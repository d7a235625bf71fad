//! Union-find over class ids, the backbone of the equivalence-class graph.
//!
//! Every id's parent pointer goes to an id no larger than itself; a root is
//! its own parent. `union` always points the larger root at the smaller one,
//! so the ordering invariant is kept and the root of any id is reached by a
//! strictly descending chain.

use vstd::prelude::*;

verus! {

/// Every parent pointer points downward, or to itself at a root.
pub open spec fn uf_wf(p: Seq<usize>) -> bool {
    forall|i: int| 0 <= i < p.len() ==> #[trigger] p[i] as int <= i
}

/// The canonical representative reached from `i` by following parent
/// pointers until they stop descending.
pub open spec fn root_of(p: Seq<usize>, i: int) -> int
    decreases i,
{
    if 0 <= i < p.len() && (p[i] as int) < i {
        root_of(p, p[i] as int)
    } else {
        i
    }
}

/// What every root becomes after the classes of `a` and `b` are merged with
/// the smaller root as the surviving canonical id.
pub open spec fn merged_root(p: Seq<usize>, a: int, b: int, k: int) -> int {
    let ra = root_of(p, a);
    let rb = root_of(p, b);
    let m = if ra <= rb { ra } else { rb };
    if root_of(p, k) == ra || root_of(p, k) == rb {
        m
    } else {
        root_of(p, k)
    }
}

pub proof fn lemma_root_bounds(p: Seq<usize>, i: int)
    requires
        0 <= i < p.len(),
    ensures
        0 <= root_of(p, i) <= i,
    decreases i,
{
    if (p[i] as int) < i {
        lemma_root_bounds(p, p[i] as int);
    }
}

/// A root resolves to itself: `root_of` is idempotent, and a root is its own
/// parent.
pub proof fn lemma_root_idem(p: Seq<usize>, i: int)
    requires
        uf_wf(p),
        0 <= i < p.len(),
    ensures
        root_of(p, root_of(p, i)) == root_of(p, i),
        p[root_of(p, i)] as int == root_of(p, i),
    decreases i,
{
    if (p[i] as int) < i {
        lemma_root_idem(p, p[i] as int);
    }
}

/// Pointing `j` directly at its own root changes no id's root.
pub proof fn lemma_update_preserves_roots(p: Seq<usize>, j: int, r: usize, k: int)
    requires
        uf_wf(p),
        0 <= j < p.len(),
        r as int == root_of(p, j),
    ensures
        root_of(p.update(j, r), k) == root_of(p, k),
        uf_wf(p.update(j, r)),
    decreases k,
{
    let q = p.update(j, r);
    lemma_root_bounds(p, j);
    assert(uf_wf(q));
    if 0 <= k < p.len() {
        if k == j {
            if (r as int) < j {
                lemma_update_preserves_roots(p, j, r, r as int);
                lemma_root_idem(p, j);
            }
        } else {
            if (p[k] as int) < k {
                lemma_update_preserves_roots(p, j, r, p[k] as int);
            }
        }
    }
}

/// Pointing the root `big` at the root `small` merges exactly the two classes
/// and leaves every other id's root alone.
pub proof fn lemma_point_root(p: Seq<usize>, big: int, small: int, k: int)
    requires
        uf_wf(p),
        0 <= small < big < p.len(),
        p[big] as int == big,
        p[small] as int == small,
    ensures
        root_of(p.update(big, small as usize), k) == (if root_of(p, k) == big {
            small
        } else {
            root_of(p, k)
        }),
        uf_wf(p.update(big, small as usize)),
    decreases k,
{
    let q = p.update(big, small as usize);
    assert(uf_wf(q));
    if 0 <= k < p.len() {
        if k == big {
            lemma_point_root(p, big, small, small);
        } else {
            if (p[k] as int) < k {
                lemma_point_root(p, big, small, p[k] as int);
            }
        }
    }
}

/// Appending a fresh root leaves every existing id's root alone.
pub proof fn lemma_push_preserves_roots(p: Seq<usize>, v: usize, k: int)
    requires
        uf_wf(p),
        v as int == p.len(),
    ensures
        root_of(p.push(v), k) == (if k == p.len() as int {
            k
        } else {
            root_of(p, k)
        }),
        uf_wf(p.push(v)),
    decreases k,
{
    let q = p.push(v);
    assert(uf_wf(q));
    if 0 <= k < p.len() {
        if (p[k] as int) < k {
            lemma_push_preserves_roots(p, v, p[k] as int);
        }
    }
}

/// Union-find idempotence: resolving an id twice gives the same canonical id
/// as resolving it once, at all times and for all ids.
pub proof fn lemma_find_idempotent(p: Seq<usize>, x: int)
    requires
        uf_wf(p),
        0 <= x < p.len(),
    ensures
        root_of(p, root_of(p, x)) == root_of(p, x),
{
    lemma_root_idem(p, x);
}

pub struct UnionFind {
    pub parents: Vec<usize>,
}

impl UnionFind {
    pub open spec fn wf(&self) -> bool {
        uf_wf(self.parents@)
    }

    pub open spec fn len(&self) -> nat {
        self.parents@.len()
    }

    pub open spec fn root(&self, i: int) -> int {
        root_of(self.parents@, i)
    }

    /// Two ids are in the same class when they resolve to the same root.
    pub open spec fn same_set(&self, a: int, b: int) -> bool {
        self.root(a) == self.root(b)
    }

    pub fn new() -> (r: Self)
        ensures
            r.wf(),
            r.len() == 0,
    {
        UnionFind { parents: Vec::new() }
    }

    /// Allocates a fresh singleton class and returns its id.
    pub fn make(&mut self) -> (r: usize)
        requires
            old(self).wf(),
        ensures
            final(self).wf(),
            final(self).len() == old(self).len() + 1,
            r as int == old(self).len(),
            forall|k: int|
                root_of(final(self).parents@, k) == (if k == old(self).len() as int {
                    k
                } else {
                    root_of(old(self).parents@, k)
                }),
    {
        let n = self.parents.len();
        self.parents.push(n);
        proof {
            assert forall|k: int|
                root_of(self.parents@, k) == (if k == old(self).len() as int {
                    k
                } else {
                    root_of(old(self).parents@, k)
                }) by {
                lemma_push_preserves_roots(old(self).parents@, n, k);
            }
        }
        n
    }

    /// Resolves `x` to its canonical id, compressing the path behind it.
    /// Compression changes parent pointers but no id's root.
    pub fn find(&mut self, x: usize) -> (r: usize)
        requires
            old(self).wf(),
            x < old(self).len(),
        ensures
            final(self).wf(),
            final(self).len() == old(self).len(),
            r as int == root_of(old(self).parents@, x as int),
            r < final(self).len(),
            forall|k: int| root_of(final(self).parents@, k) == root_of(old(self).parents@, k),
    {
        let ghost p0 = self.parents@;
        let mut cur: usize = x;
        while self.parents[cur] != cur
            invariant
                uf_wf(p0),
                self.parents@ == p0,
                cur < p0.len(),
                root_of(p0, cur as int) == root_of(p0, x as int),
            decreases cur,
        {
            cur = self.parents[cur];
        }
        let r = cur;
        assert(r as int == root_of(p0, x as int));
        proof {
            lemma_root_bounds(p0, x as int);
        }
        let mut c2: usize = x;
        while self.parents[c2] != c2
            invariant
                self.wf(),
                self.parents@.len() == p0.len(),
                c2 < p0.len(),
                r as int == root_of(p0, x as int),
                root_of(self.parents@, c2 as int) == r as int,
                forall|k: int| root_of(self.parents@, k) == root_of(p0, k),
            decreases c2,
        {
            let nxt = self.parents[c2];
            let ghost pcur = self.parents@;
            self.parents[c2] = r;
            proof {
                assert(root_of(pcur, c2 as int) == r as int);
                assert((nxt as int) < c2 as int);
                assert(root_of(pcur, c2 as int) == root_of(pcur, nxt as int));
                assert forall|k: int| root_of(self.parents@, k) == root_of(pcur, k) by {
                    lemma_update_preserves_roots(pcur, c2 as int, r, k);
                }
                lemma_update_preserves_roots(pcur, c2 as int, r, c2 as int);
            }
            c2 = nxt;
        }
        r
    }

    /// Merges the classes of `a` and `b`; the smaller canonical id survives.
    /// Returns whether an actual merge occurred (a no-op when the two ids are
    /// already canonically equal). Merging never separates ids that were
    /// already equal: every id's new root is given by `merged_root`.
    pub fn union(&mut self, a: usize, b: usize) -> (r: bool)
        requires
            old(self).wf(),
            a < old(self).len(),
            b < old(self).len(),
        ensures
            final(self).wf(),
            final(self).len() == old(self).len(),
            r == (root_of(old(self).parents@, a as int) != root_of(
                old(self).parents@,
                b as int,
            )),
            forall|k: int|
                0 <= k < old(self).len() ==> root_of(final(self).parents@, k) == merged_root(
                    old(self).parents@,
                    a as int,
                    b as int,
                    k,
                ),
    {
        let ghost p0 = self.parents@;
        let ra = self.find(a);
        let rb = self.find(b);
        if ra == rb {
            proof {
                assert forall|k: int|
                    0 <= k < old(self).len() implies root_of(self.parents@, k) == merged_root(
                    p0,
                    a as int,
                    b as int,
                    k,
                ) by {
                    assert(root_of(self.parents@, k) == root_of(p0, k));
                }
            }
            return false;
        }
        let small: usize = if ra < rb {
            ra
        } else {
            rb
        };
        let big: usize = if ra < rb {
            rb
        } else {
            ra
        };
        let ghost pmid = self.parents@;
        proof {
            lemma_root_bounds(p0, a as int);
            lemma_root_bounds(p0, b as int);
            lemma_root_idem(p0, a as int);
            lemma_root_idem(p0, b as int);
            lemma_root_idem(pmid, big as int);
            lemma_root_idem(pmid, small as int);
            assert(root_of(pmid, big as int) == big as int);
            assert(root_of(pmid, small as int) == small as int);
        }
        self.parents[big] = small;
        proof {
            assert forall|k: int|
                0 <= k < old(self).len() implies root_of(self.parents@, k) == merged_root(
                p0,
                a as int,
                b as int,
                k,
            ) by {
                lemma_point_root(pmid, big as int, small as int, k);
            }
            lemma_point_root(pmid, big as int, small as int, 0);
        }
        true
    }
}

} // verus!
