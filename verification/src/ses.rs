//! The shared expression structure: an arena of equivalence classes addressed
//! by integer id, a union-find over the ids, and a hashcons table mapping
//! canonicalized nodes to the class that owns them.

use vstd::prelude::*;

use crate::ache::{ache_at, max_merge_spec, AcheAnalysis, AcheVec};
use crate::expr::{copy_node, copy_usizes, node_eq, node_like, ENode};
use crate::uf::{merged_root, root_of, uf_wf, UnionFind};

verus! {

/// One equivalence class: the structurally distinct nodes known equal, plus
/// the class's analysis value.
pub struct EClass {
    pub nodes: Vec<ENode>,
    pub ache: AcheVec,
}

pub struct Ses {
    pub uf: UnionFind,
    pub classes: Vec<EClass>,
    pub table: Vec<(ENode, usize)>,
}

/// The canonical shape of a node under the union-find `p`: its operator text
/// and the roots of its children.
pub open spec fn node_key(p: Seq<usize>, n: ENode) -> (Seq<char>, Seq<int>) {
    (n.op@, n.children@.map_values(|c: usize| root_of(p, c as int)))
}

/// All child references of `n` lie below `len`.
pub open spec fn node_valid(n: ENode, len: int) -> bool {
    forall|k: int| 0 <= k < n.children@.len() ==> #[trigger] n.children@[k] < len
}

/// The first table entry structurally equal to the probed shape, scanning
/// from position `t`.
pub open spec fn lookup_from(
    tab: Seq<(ENode, usize)>,
    op: Seq<char>,
    ch: Seq<usize>,
    t: int,
) -> Option<usize>
    decreases tab.len() - t,
{
    if t < 0 || t >= tab.len() {
        None
    } else if tab[t].0.op@ == op && tab[t].0.children@ == ch {
        Some(tab[t].1)
    } else {
        lookup_from(tab, op, ch, t + 1)
    }
}

/// The hashcons lookup of a node shape: its first structurally equal entry.
pub open spec fn spec_lookup(tab: Seq<(ENode, usize)>, op: Seq<char>, ch: Seq<usize>) -> Option<
    usize,
> {
    lookup_from(tab, op, ch, 0)
}

/// Class `c` owns a node whose canonical shape is `key`.
pub open spec fn class_contains_key(s: Ses, c: int, key: (Seq<char>, Seq<int>)) -> bool {
    exists|j: int|
        0 <= j < s.classes@[c].nodes@.len() && node_key(s.uf.parents@, s.classes@[c].nodes@[j])
            == key
}

impl Ses {
    pub open spec fn p(&self) -> Seq<usize> {
        self.uf.parents@
    }

    pub open spec fn len(&self) -> nat {
        self.uf.len()
    }

    pub open spec fn root(&self, i: int) -> int {
        root_of(self.p(), i)
    }

    /// The structural invariant: union-find well-formed, one class record per
    /// id, all child references valid, nodes held only at canonical ids, and
    /// every hashcons entry naming a class that owns a node of that shape.
    pub open spec fn wf(&self) -> bool {
        &&& self.uf.wf()
        &&& self.classes@.len() == self.p().len()
        &&& forall|c: int, j: int|
            0 <= c < self.classes@.len() && 0 <= j < self.classes@[c].nodes@.len()
                ==> node_valid(#[trigger] self.classes@[c].nodes@[j], self.len() as int)
        &&& forall|c: int|
            0 <= c < self.classes@.len() && self.root(c) != c ==> (
            #[trigger] self.classes@[c].nodes@.len()) == 0
        &&& forall|t: int|
            0 <= t < self.table@.len() ==> (#[trigger] self.table@[t].1) < self.len()
                && node_valid(self.table@[t].0, self.len() as int)
        &&& forall|t: int|
            0 <= t < self.table@.len() ==> class_contains_key(
                *self,
                self.root(#[trigger] self.table@[t].1 as int),
                node_key(self.p(), self.table@[t].0),
            )
    }

    pub fn new() -> (r: Ses)
        ensures
            r.wf(),
            r.len() == 0,
            r.table@.len() == 0,
    {
        Ses { uf: UnionFind::new(), classes: Vec::new(), table: Vec::new() }
    }

    pub fn class_count(&self) -> (r: usize)
        requires
            self.wf(),
        ensures
            r == self.len(),
    {
        self.classes.len()
    }

    /// Resolves an id to its canonical id.
    pub fn find(&mut self, x: usize) -> (r: usize)
        requires
            old(self).wf(),
            x < old(self).len(),
        ensures
            final(self).wf(),
            final(self).len() == old(self).len(),
            final(self).classes@ == old(self).classes@,
            final(self).table@ == old(self).table@,
            r as int == old(self).root(x as int),
            r < final(self).len(),
            forall|k: int| root_of(final(self).p(), k) == root_of(old(self).p(), k),
    {
        let r = self.uf.find(x);
        proof {
            lemma_same_roots_wf(*old(self), *self);
        }
        r
    }

    /// Looks a node up in the hashcons table by exact structural equality,
    /// returning the first matching entry's class id.
    pub fn lookup_raw(&self, n: &ENode) -> (r: Option<usize>)
        ensures
            r == spec_lookup(self.table@, n.op@, n.children@),
            match r {
                Some(id) => exists|t: int|
                    0 <= t < self.table@.len() && node_like(&#[trigger] self.table@[t].0, n)
                        && self.table@[t].1 == id,
                None => forall|t: int|
                    0 <= t < self.table@.len() ==> !node_like(&#[trigger] self.table@[t].0, n),
            },
    {
        let mut t: usize = 0;
        while t < self.table.len()
            invariant
                t <= self.table@.len(),
                forall|u: int| 0 <= u < t ==> !node_like(&#[trigger] self.table@[u].0, n),
                spec_lookup(self.table@, n.op@, n.children@) == lookup_from(
                    self.table@,
                    n.op@,
                    n.children@,
                    t as int,
                ),
            decreases self.table@.len() - t,
        {
            if node_eq(&self.table[t].0, n) {
                return Some(self.table[t].1);
            }
            t = t + 1;
        }
        None
    }

    /// Rewrites each child of a node to its canonical id. The canonical shape
    /// is unchanged.
    pub fn canonicalize_children(&mut self, children: &Vec<usize>) -> (r: Vec<usize>)
        requires
            old(self).wf(),
            forall|k: int| 0 <= k < children@.len() ==> #[trigger] children@[k] < old(self).len(),
        ensures
            final(self).wf(),
            final(self).classes@ == old(self).classes@,
            final(self).table@ == old(self).table@,
            final(self).len() == old(self).len(),
            forall|k: int| root_of(final(self).p(), k) == root_of(old(self).p(), k),
            r@.len() == children@.len(),
            forall|k: int|
                0 <= k < children@.len() ==> #[trigger] r@[k] as int == old(self).root(
                    children@[k] as int,
                ),
            forall|k: int| 0 <= k < r@.len() ==> #[trigger] r@[k] < old(self).len(),
    {
        let mut out: Vec<usize> = Vec::new();
        let mut k: usize = 0;
        while k < children.len()
            invariant
                self.wf(),
                self.classes@ == old(self).classes@,
                self.table@ == old(self).table@,
                self.len() == old(self).len(),
                forall|j: int| root_of(self.p(), j) == root_of(old(self).p(), j),
                forall|j: int| 0 <= j < children@.len() ==> #[trigger] children@[j] < self.len(),
                k <= children@.len(),
                out@.len() == k,
                forall|j: int|
                    0 <= j < k ==> #[trigger] out@[j] as int == old(self).root(
                        children@[j] as int,
                    ),
                forall|j: int| 0 <= j < k ==> #[trigger] out@[j] < self.len(),
            decreases children@.len() - k,
        {
            let c = self.find(children[k]);
            out.push(c);
            k = k + 1;
        }
        out
    }
}

/// The surviving (smaller) and disappearing (larger) canonical ids of a merge.
pub open spec fn surv(p: Seq<usize>, a: int, b: int) -> int {
    if root_of(p, a) <= root_of(p, b) {
        root_of(p, a)
    } else {
        root_of(p, b)
    }
}

pub open spec fn gone(p: Seq<usize>, a: int, b: int) -> int {
    if root_of(p, a) <= root_of(p, b) {
        root_of(p, b)
    } else {
        root_of(p, a)
    }
}

/// Every class reference inside a canonical shape lies below `len`.
pub open spec fn key_valid(key: (Seq<char>, Seq<int>), len: int) -> bool {
    forall|k: int| 0 <= k < key.1.len() ==> 0 <= #[trigger] key.1[k] < len
}

/// A canonical shape re-read under a later union-find state: every child root
/// is resolved again.
pub open spec fn rekey(p: Seq<usize>, key: (Seq<char>, Seq<int>)) -> (Seq<char>, Seq<int>) {
    (key.0, key.1.map_values(|r: int| root_of(p, r)))
}

/// `b` only coarsens `a`'s equivalence: ids equal in `a` stay equal in `b`.
pub open spec fn coarsens(a: Ses, b: Ses) -> bool {
    forall|x: int, y: int|
        0 <= x < a.len() && 0 <= y < a.len() && root_of(a.p(), x) == root_of(a.p(), y)
            ==> #[trigger] root_of(b.p(), x) == #[trigger] root_of(b.p(), y)
}

/// Every canonical shape a canonical class of `a` owns is still owned, after
/// re-resolving its child roots, by that class's new canonical class in `b`.
pub open spec fn preserves_keys(a: Ses, b: Ses) -> bool {
    forall|c: int, key: (Seq<char>, Seq<int>)|
        0 <= c < a.len() && root_of(a.p(), c) == c && key_valid(key, a.len() as int)
            && #[trigger] class_contains_key(a, c, key) ==> class_contains_key(
            b,
            root_of(b.p(), c),
            rekey(b.p(), key),
        )
}

/// The canonical shape of a valid node is a valid key.
pub proof fn lemma_node_key_valid(p: Seq<usize>, n: ENode, len: int)
    requires
        node_valid(n, len),
        len == p.len(),
    ensures
        key_valid(node_key(p, n), len),
{
    assert forall|k: int|
        0 <= k < node_key(p, n).1.len() implies 0 <= #[trigger] node_key(p, n).1[k] < len by {
        crate::uf::lemma_root_bounds(p, n.children@[k] as int);
    }
}

/// Re-reading twice under successively coarser equivalences is the same as
/// re-reading once under the final one.
pub proof fn lemma_rekey_compose(a: Ses, b: Ses, key: (Seq<char>, Seq<int>))
    requires
        a.uf.wf(),
        key_valid(key, a.len() as int),
        coarsens(a, b),
    ensures
        rekey(b.p(), rekey(a.p(), key)) == rekey(b.p(), key),
        key_valid(rekey(a.p(), key), a.len() as int),
{
    assert forall|j: int|
        0 <= j < key.1.len() implies 0 <= #[trigger] rekey(a.p(), key).1[j] < a.len() by {
        crate::uf::lemma_root_bounds(a.p(), key.1[j]);
    }
    assert forall|j: int|
        0 <= j < key.1.len() implies root_of(b.p(), #[trigger] rekey(a.p(), key).1[j]) == root_of(
        b.p(),
        key.1[j],
    ) by {
        crate::uf::lemma_root_bounds(a.p(), key.1[j]);
        crate::uf::lemma_root_idem(a.p(), key.1[j]);
        assert(root_of(a.p(), root_of(a.p(), key.1[j])) == root_of(a.p(), key.1[j]));
    }
    assert(rekey(b.p(), rekey(a.p(), key)).1 =~= rekey(b.p(), key).1);
}

/// Key preservation composes across two mutation steps.
pub proof fn lemma_preserves_trans(a: Ses, b: Ses, c: Ses)
    requires
        a.uf.wf(),
        b.uf.wf(),
        a.len() <= b.len(),
        b.len() <= c.len(),
        coarsens(a, b),
        coarsens(b, c),
        preserves_keys(a, b),
        preserves_keys(b, c),
    ensures
        coarsens(a, c),
        preserves_keys(a, c),
{
    assert forall|x: int, y: int|
        0 <= x < a.len() && 0 <= y < a.len() && root_of(a.p(), x) == root_of(a.p(), y)
            implies #[trigger] root_of(c.p(), x) == #[trigger] root_of(c.p(), y) by {
        assert(root_of(b.p(), x) == root_of(b.p(), y));
    }
    assert forall|cl: int, key: (Seq<char>, Seq<int>)|
        0 <= cl < a.len() && root_of(a.p(), cl) == cl && key_valid(key, a.len() as int)
            && #[trigger] class_contains_key(a, cl, key) implies class_contains_key(
        c,
        root_of(c.p(), cl),
        rekey(c.p(), key),
    ) by {
        let c1 = root_of(b.p(), cl);
        let key1 = rekey(b.p(), key);
        assert(class_contains_key(b, c1, key1));
        crate::uf::lemma_root_bounds(b.p(), cl);
        crate::uf::lemma_root_idem(b.p(), cl);
        assert(root_of(b.p(), c1) == c1);
        assert forall|j: int| 0 <= j < key1.1.len() implies 0 <= #[trigger] key1.1[j]
            < b.len() by {
            crate::uf::lemma_root_bounds(b.p(), key.1[j]);
        }
        assert(key_valid(key1, b.len() as int));
        assert(class_contains_key(c, root_of(c.p(), c1), rekey(c.p(), key1)));
        lemma_rekey_compose(b, c, key);
        assert(rekey(c.p(), key1) == rekey(c.p(), key));
        assert(root_of(b.p(), cl) == root_of(b.p(), c1));
        assert(root_of(c.p(), cl) == root_of(c.p(), c1));
    }
}

/// With unchanged roots and unchanged classes, keys are trivially preserved.
pub proof fn lemma_preserves_same(a: Ses, b: Ses)
    requires
        a.uf.wf(),
        b.uf.wf(),
        a.wf(),
        a.len() <= b.len(),
        forall|c: int| 0 <= c < a.len() ==> #[trigger] b.classes@[c] == a.classes@[c],
        forall|k: int| 0 <= k < a.len() ==> #[trigger] root_of(b.p(), k) == root_of(a.p(), k),
    ensures
        coarsens(a, b),
        preserves_keys(a, b),
{
    assert forall|cl: int, key: (Seq<char>, Seq<int>)|
        0 <= cl < a.len() && root_of(a.p(), cl) == cl && key_valid(key, a.len() as int)
            && #[trigger] class_contains_key(a, cl, key) implies class_contains_key(
        b,
        root_of(b.p(), cl),
        rekey(b.p(), key),
    ) by {
        let j = choose|j: int|
            0 <= j < a.classes@[cl].nodes@.len() && node_key(a.p(), a.classes@[cl].nodes@[j])
                == key;
        let w = a.classes@[cl].nodes@[j];
        lemma_key_same_roots(a.p(), b.p(), w);
        lemma_node_key_valid(a.p(), w, a.len() as int);
        crate::uf::lemma_root_idem(a.p(), cl);
        assert forall|q: int| 0 <= q < key.1.len() implies root_of(a.p(), #[trigger] key.1[q])
            == key.1[q] by {
            crate::uf::lemma_root_idem(a.p(), w.children@[q] as int);
        }
        assert(key.1.map_values(|r: int| root_of(b.p(), r)) =~= key.1);
        assert(rekey(b.p(), key) == key);
        assert(node_key(b.p(), b.classes@[cl].nodes@[j]) == key);
    }
}

/// Nodes whose children have pairwise equal roots have the same canonical
/// shape.
pub proof fn lemma_key_same_roots(p1: Seq<usize>, p2: Seq<usize>, n: ENode)
    requires
        forall|k: int|
            0 <= k < n.children@.len() ==> root_of(p2, #[trigger] n.children@[k] as int) == root_of(
                p1,
                n.children@[k] as int,
            ),
    ensures
        node_key(p2, n) == node_key(p1, n),
{
    assert(n.children@.map_values(|c: usize| root_of(p2, c as int)) =~= n.children@.map_values(
        |c: usize| root_of(p1, c as int),
    ));
}

/// If the union-find only coarsens (ids equal before stay equal after), then
/// nodes with equal canonical shapes keep equal canonical shapes.
pub proof fn lemma_key_coarsen(p1: Seq<usize>, p2: Seq<usize>, n1: ENode, n2: ENode, len: int)
    requires
        node_key(p1, n1) == node_key(p1, n2),
        node_valid(n1, len),
        node_valid(n2, len),
        forall|x: int, y: int|
            0 <= x < len && 0 <= y < len && root_of(p1, x) == root_of(p1, y) ==> #[trigger] root_of(
                p2,
                x,
            ) == #[trigger] root_of(p2, y),
    ensures
        node_key(p2, n1) == node_key(p2, n2),
{
    let m1 = n1.children@.map_values(|c: usize| root_of(p1, c as int));
    let m2 = n2.children@.map_values(|c: usize| root_of(p1, c as int));
    assert(m1 == m2);
    assert(n1.children@.len() == n2.children@.len()) by {
        assert(m1.len() == m2.len());
    }
    assert forall|k: int|
        0 <= k < n1.children@.len() implies root_of(p2, #[trigger] n1.children@[k] as int)
        == root_of(p2, n2.children@[k] as int) by {
        assert(m1[k] == m2[k]);
        assert(root_of(p1, n1.children@[k] as int) == root_of(p1, n2.children@[k] as int));
    }
    assert(n1.children@.map_values(|c: usize| root_of(p2, c as int)) =~= n2.children@.map_values(
        |c: usize| root_of(p2, c as int),
    ));
}

/// Two states with equal class storage, equal tables, and pointwise-equal
/// roots satisfy `wf` together.
pub proof fn lemma_same_roots_wf(a: Ses, b: Ses)
    requires
        a.wf(),
        b.uf.wf(),
        b.classes@ == a.classes@,
        b.table@ == a.table@,
        b.len() == a.len(),
        forall|k: int| root_of(b.p(), k) == root_of(a.p(), k),
    ensures
        b.wf(),
        forall|c: int, key: (Seq<char>, Seq<int>)|
            class_contains_key(a, c, key) ==> class_contains_key(b, c, key),
{
    assert forall|n: ENode| #[trigger] node_key(b.p(), n) == node_key(a.p(), n) by {
        assert(n.children@.map_values(|c: usize| root_of(b.p(), c as int)) =~= n.children@
            .map_values(|c: usize| root_of(a.p(), c as int)));
    }
    assert forall|c: int, key: (Seq<char>, Seq<int>)|
        class_contains_key(a, c, key) implies class_contains_key(b, c, key) by {
        let j = choose|j: int|
            0 <= j < a.classes@[c].nodes@.len() && node_key(a.p(), a.classes@[c].nodes@[j]) == key;
        assert(node_key(b.p(), b.classes@[c].nodes@[j]) == key);
    }
    assert forall|t: int|
        0 <= t < b.table@.len() implies class_contains_key(
        b,
        b.root(#[trigger] b.table@[t].1 as int),
        node_key(b.p(), b.table@[t].0),
    ) by {
        assert(class_contains_key(
            a,
            a.root(a.table@[t].1 as int),
            node_key(a.p(), a.table@[t].0),
        ));
    }
}

impl Ses {
    /// Inserts one node whose children are existing class ids and returns the
    /// class owning that canonical shape: the existing one when the shape is
    /// already hashconsed, otherwise a fresh singleton class seeded with the
    /// operator's ache profile. Insertion never merges and never fails.
    pub fn insert_node(&mut self, op: String, children: Vec<usize>) -> (r: usize)
        requires
            old(self).wf(),
            forall|k: int| 0 <= k < children@.len() ==> #[trigger] children@[k] < old(self).len(),
        ensures
            final(self).wf(),
            old(self).len() <= final(self).len() <= old(self).len() + 1,
            r < final(self).len(),
            final(self).root(r as int) == r as int,
            forall|k: int|
                0 <= k < old(self).len() ==> root_of(final(self).p(), k) == root_of(
                    old(self).p(),
                    k,
                ),
            forall|c: int|
                0 <= c < old(self).len() ==> final(self).classes@[c] == old(self).classes@[c],
            old(self).table@.len() <= final(self).table@.len(),
            forall|t: int|
                0 <= t < old(self).table@.len() ==> final(self).table@[t] == old(self).table@[t],
            class_contains_key(
                *final(self),
                r as int,
                node_key(final(self).p(), (ENode { op: op, children: children })),
            ),
            coarsens(*old(self), *final(self)),
            preserves_keys(*old(self), *final(self)),
    {
        let ghost p0 = self.p();
        let cn = self.canonicalize_children(&children);
        let node = ENode { op: op.clone(), children: cn };
        proof {
            assert forall|k: int|
                0 <= k < children@.len() implies root_of(
                self.p(),
                #[trigger] node.children@[k] as int,
            ) == root_of(self.p(), children@[k] as int) by {
                crate::uf::lemma_root_idem(p0, children@[k] as int);
            }
            assert(node_key(self.p(), node) == node_key(
                self.p(),
                (ENode { op: op, children: children }),
            )) by {
                assert(node.children@.map_values(|c: usize| root_of(self.p(), c as int))
                    =~= children@.map_values(|c: usize| root_of(self.p(), c as int)));
            }
        }
        let found = self.lookup_raw(&node);
        match found {
            Some(d) => {
                let ghost pmid = self.p();
                let ghost t = choose|t: int|
                    0 <= t < self.table@.len() && node_like(&self.table@[t].0, &node)
                        && self.table@[t].1 == d;
                let r = self.find(d);
                proof {
                    assert(node_key(self.p(), self.table@[t].0) == node_key(self.p(), node));
                    assert(class_contains_key(
                        *self,
                        self.root(d as int),
                        node_key(self.p(), self.table@[t].0),
                    ));
                    crate::uf::lemma_root_idem(self.p(), d as int);
                    lemma_key_same_roots(pmid, self.p(), node);
                    lemma_key_same_roots(
                        pmid,
                        self.p(),
                        (ENode { op: op, children: children }),
                    );
                    lemma_preserves_same(*old(self), *self);
                }
                r
            },
            None => {
                let ghost mid = *self;
                let ghost pmid = self.p();
                let n = self.uf.make();
                let stored = copy_node(&node);
                let mut one: Vec<ENode> = Vec::new();
                one.push(stored);
                let data = AcheAnalysis::make(op.as_str());
                self.classes.push(EClass { nodes: one, ache: data.ache });
                self.table.push((node, n));
                proof {
                    let pf = self.p();
                    assert forall|k: int| 0 <= k < old(self).len() implies root_of(pf, k)
                        == root_of(pmid, k) by {}
                    assert(root_of(pf, n as int) == n as int);
                    // the fresh class owns the canonical node
                    assert forall|nd: ENode|
                        node_valid(nd, old(self).len() as int) implies node_key(pf, nd)
                        == node_key(pmid, nd) by {
                        lemma_key_same_roots(pmid, pf, nd);
                    }
                    assert(self.classes@[n as int].nodes@[0].op@ == node.op@
                        && self.classes@[n as int].nodes@[0].children@ == node.children@);
                    assert(node_key(pf, self.classes@[n as int].nodes@[0]) == node_key(pf, node));
                    assert(class_contains_key(*self, n as int, node_key(pf, node)));
                    lemma_key_same_roots(pmid, pf, (ENode { op: op, children: children }));
                    // well-formedness: old table entries still point at owners
                    assert forall|t: int|
                        0 <= t < self.table@.len() implies class_contains_key(
                        *self,
                        self.root(#[trigger] self.table@[t].1 as int),
                        node_key(self.p(), self.table@[t].0),
                    ) by {
                        if t < old(self).table@.len() {
                            let c0 = root_of(pmid, self.table@[t].1 as int);
                            assert(mid.wf());
                            assert(class_contains_key(
                                mid,
                                c0,
                                node_key(pmid, self.table@[t].0),
                            ));
                            let j = choose|j: int|
                                0 <= j < mid.classes@[c0].nodes@.len() && node_key(
                                    pmid,
                                    mid.classes@[c0].nodes@[j],
                                ) == node_key(pmid, self.table@[t].0);
                            crate::uf::lemma_root_bounds(pmid, self.table@[t].1 as int);
                            lemma_key_same_roots(pmid, pf, mid.classes@[c0].nodes@[j]);
                            lemma_key_same_roots(pmid, pf, self.table@[t].0);
                            assert(node_key(pf, self.classes@[c0].nodes@[j]) == node_key(
                                pf,
                                self.table@[t].0,
                            ));
                        }
                    }
                    assert(self.wf());
                    lemma_preserves_same(*old(self), *self);
                }
                n
            },
        }
    }

    /// Merges the classes of `a` and `b`. The smaller canonical id survives;
    /// it takes over the other class's nodes and the elementwise maximum of
    /// the two analysis values, so no ache component ever decreases at any
    /// id's canonical class. Returns whether an actual merge occurred.
    pub fn union(&mut self, a: usize, b: usize) -> (r: bool)
        requires
            old(self).wf(),
            a < old(self).len(),
            b < old(self).len(),
        ensures
            final(self).wf(),
            final(self).len() == old(self).len(),
            final(self).table@ == old(self).table@,
            r == (root_of(old(self).p(), a as int) != root_of(old(self).p(), b as int)),
            forall|k: int|
                0 <= k < old(self).len() ==> root_of(final(self).p(), k) == merged_root(
                    old(self).p(),
                    a as int,
                    b as int,
                    k,
                ),
            !r ==> final(self).classes@ == old(self).classes@,
            r ==> final(self).classes@[surv(old(self).p(), a as int, b as int)].nodes@
                == old(self).classes@[surv(old(self).p(), a as int, b as int)].nodes@
                + old(self).classes@[gone(old(self).p(), a as int, b as int)].nodes@,
            r ==> final(self).classes@[surv(old(self).p(), a as int, b as int)].ache.vals@
                == max_merge_spec(
                old(self).classes@[surv(old(self).p(), a as int, b as int)].ache.vals@,
                old(self).classes@[gone(old(self).p(), a as int, b as int)].ache.vals@,
            ),
            r ==> final(self).classes@[gone(old(self).p(), a as int, b as int)].nodes@.len() == 0,
            forall|c: int|
                0 <= c < old(self).len() && c != surv(old(self).p(), a as int, b as int) && c
                    != gone(old(self).p(), a as int, b as int) ==> final(self).classes@[c]
                    == old(self).classes@[c],
            forall|x: int, i: int|
                0 <= x < old(self).len() ==> ache_at(
                    old(self).classes@[root_of(old(self).p(), x)].ache.vals@,
                    i,
                ) <= ache_at(
                    final(self).classes@[root_of(final(self).p(), x)].ache.vals@,
                    i,
                ),
            coarsens(*old(self), *final(self)),
            preserves_keys(*old(self), *final(self)),
    {
        let ghost p0 = self.p();
        let ra = self.find(a);
        let rb = self.find(b);
        proof {
            crate::uf::lemma_root_bounds(p0, a as int);
            crate::uf::lemma_root_bounds(p0, b as int);
            crate::uf::lemma_root_idem(p0, a as int);
            crate::uf::lemma_root_idem(p0, b as int);
        }
        if ra == rb {
            proof {
                assert forall|x: int, i: int| 0 <= x < old(self).len() implies ache_at(
                    old(self).classes@[root_of(old(self).p(), x)].ache.vals@,
                    i,
                ) <= ache_at(self.classes@[root_of(self.p(), x)].ache.vals@, i) by {
                    assert(root_of(self.p(), x) == root_of(p0, x));
                }
                lemma_preserves_same(*old(self), *self);
            }
            return false;
        }
        let ghost pmid = self.p();
        let merged = self.uf.union(a, b);
        let s: usize = if ra < rb {
            ra
        } else {
            rb
        };
        let l: usize = if ra < rb {
            rb
        } else {
            ra
        };
        let ghost pnew = self.p();
        proof {
            assert forall|k: int| 0 <= k < p0.len() implies root_of(pnew, k) == merged_root(
                p0,
                a as int,
                b as int,
                k,
            ) by {
                assert(root_of(pnew, k) == merged_root(pmid, a as int, b as int, k));
                assert(root_of(pmid, a as int) == root_of(p0, a as int));
                assert(root_of(pmid, b as int) == root_of(p0, b as int));
                assert(root_of(pmid, k) == root_of(p0, k));
            }
            assert(root_of(pnew, s as int) == s as int);
            assert(root_of(pnew, l as int) == s as int);
        }
        let mut moved = self.classes[l].nodes.split_off(0);
        self.classes[s].nodes.append(&mut moved);
        let newache = AcheVec::max_merge(&self.classes[s].ache, &self.classes[l].ache);
        self.classes[s].ache = newache;
        proof {
            let pold = old(self).p();
            assert(self.p() == pnew);
            assert forall|k: int|
                0 <= k < pold.len() implies root_of(self.p(), k) == merged_root(
                pold,
                a as int,
                b as int,
                k,
            ) by {}
            // canonical-only node storage is preserved: `l` is emptied, `s`
            // stays canonical, every other class keeps its root
            assert(root_of(self.p(), s as int) == s as int);
            // analysis monotonicity at every id's canonical class
            assert forall|x: int, i: int| 0 <= x < old(self).len() implies ache_at(
                old(self).classes@[root_of(pold, x)].ache.vals@,
                i,
            ) <= ache_at(self.classes@[root_of(self.p(), x)].ache.vals@, i) by {
                crate::uf::lemma_root_bounds(pold, x);
                let r0 = root_of(pold, x);
                let r1 = root_of(self.p(), x);
                if r0 == s as int || r0 == l as int {
                    assert(r1 == s as int);
                    crate::ache::lemma_max_merge_monotone(
                        old(self).classes@[s as int].ache.vals@,
                        old(self).classes@[l as int].ache.vals@,
                        i,
                    );
                } else {
                    assert(r1 == r0);
                }
            }
            // hashcons entries still name owners of their shapes
            assert forall|x: int, y: int|
                0 <= x < old(self).len() && 0 <= y < old(self).len() && root_of(pold, x)
                    == root_of(pold, y) implies #[trigger] root_of(self.p(), x) == #[trigger] root_of(
                self.p(),
                y,
            ) by {}
            assert forall|t: int|
                0 <= t < self.table@.len() implies class_contains_key(
                *self,
                self.root(#[trigger] self.table@[t].1 as int),
                node_key(self.p(), self.table@[t].0),
            ) by {
                let d = self.table@[t].1 as int;
                let c0 = root_of(pold, d);
                crate::uf::lemma_root_bounds(pold, d);
                assert(class_contains_key(*old(self), c0, node_key(pold, self.table@[t].0)));
                let j = choose|j: int|
                    0 <= j < old(self).classes@[c0].nodes@.len() && node_key(
                        pold,
                        old(self).classes@[c0].nodes@[j],
                    ) == node_key(pold, self.table@[t].0);
                let w = old(self).classes@[c0].nodes@[j];
                lemma_key_coarsen(pold, self.p(), w, self.table@[t].0, old(self).len() as int);
                let c1 = root_of(self.p(), d);
                if c0 == s as int {
                    assert(self.classes@[c1].nodes@[j] == w);
                } else if c0 == l as int {
                    assert(c1 == s as int);
                    assert(self.classes@[c1].nodes@[old(self).classes@[s as int].nodes@.len() + j]
                        == w);
                } else {
                    assert(c1 == c0);
                    assert(self.classes@[c1].nodes@[j] == w);
                }
                assert(class_contains_key(*self, c1, node_key(self.p(), w)));
            }
            assert(coarsens(*old(self), *self));
            assert forall|cl: int, key: (Seq<char>, Seq<int>)|
                0 <= cl < old(self).len() && root_of(pold, cl) == cl && key_valid(
                key,
                old(self).len() as int,
            ) && #[trigger] class_contains_key(*old(self), cl, key) implies class_contains_key(
                *self,
                root_of(self.p(), cl),
                rekey(self.p(), key),
            ) by {
                let j = choose|j: int|
                    0 <= j < old(self).classes@[cl].nodes@.len() && node_key(
                        pold,
                        old(self).classes@[cl].nodes@[j],
                    ) == key;
                let w = old(self).classes@[cl].nodes@[j];
                assert forall|q: int|
                    0 <= q < key.1.len() implies root_of(self.p(), #[trigger] key.1[q]) == root_of(
                    self.p(),
                    w.children@[q] as int,
                ) by {
                    crate::uf::lemma_root_idem(pold, w.children@[q] as int);
                    crate::uf::lemma_root_bounds(pold, w.children@[q] as int);
                    assert(key.1[q] == root_of(pold, w.children@[q] as int));
                }
                assert(rekey(self.p(), key).1 =~= node_key(self.p(), w).1);
                let c1 = root_of(self.p(), cl);
                if cl == s as int {
                    assert(self.classes@[c1].nodes@[j] == w);
                } else if cl == l as int {
                    assert(c1 == s as int);
                    assert(self.classes@[c1].nodes@[old(self).classes@[s as int].nodes@.len() + j]
                        == w);
                } else {
                    assert(c1 == cl);
                    assert(self.classes@[c1].nodes@[j] == w);
                }
                assert(class_contains_key(*self, c1, node_key(self.p(), w)));
            }
            assert(self.wf());
        }
        true
    }
}

/// The canonical shape of position `i` of a tree whose positions resolved to
/// the classes `ids`: the node's operator over the roots of its children's
/// classes.
pub open spec fn pos_key(s: Ses, expr: crate::expr::Expr, ids: Seq<usize>, i: int) -> (
    Seq<char>,
    Seq<int>,
) {
    (
        expr.nodes@[i].op@,
        expr.nodes@[i].children@.map_values(|k: usize| root_of(s.p(), ids[k as int] as int)),
    )
}

impl Ses {
    /// Inserts a whole expression bottom-up; returns one class id per
    /// position (the root's id is last), and afterwards each position's class
    /// owns a node of that position's canonical shape. Insertion never fails
    /// for well-formed trees.
    pub fn insert_expr(&mut self, expr: &crate::expr::Expr) -> (r: Vec<usize>)
        requires
            old(self).wf(),
            expr.wf(),
        ensures
            final(self).wf(),
            old(self).len() <= final(self).len(),
            r@.len() == expr.len(),
            forall|i: int| 0 <= i < r@.len() ==> (#[trigger] r@[i]) < final(self).len(),
            forall|i: int|
                0 <= i < r@.len() ==> root_of(final(self).p(), #[trigger] r@[i] as int)
                    == r@[i] as int,
            forall|i: int|
                0 <= i < r@.len() ==> class_contains_key(
                    *final(self),
                    #[trigger] r@[i] as int,
                    pos_key(*final(self), *expr, r@, i),
                ),
    {
        let n = expr.node_count();
        let mut ids: Vec<usize> = Vec::new();
        let mut i: usize = 0;
        while i < n
            invariant
                self.wf(),
                expr.wf(),
                old(self).len() <= self.len(),
                n == expr.len(),
                i <= n,
                ids@.len() == i,
                forall|u: int| 0 <= u < ids@.len() ==> (#[trigger] ids@[u]) < self.len(),
                forall|u: int|
                    0 <= u < ids@.len() ==> root_of(self.p(), #[trigger] ids@[u] as int)
                        == ids@[u] as int,
                forall|u: int|
                    0 <= u < ids@.len() ==> class_contains_key(
                        *self,
                        #[trigger] ids@[u] as int,
                        pos_key(*self, *expr, ids@, u),
                    ),
            decreases n - i,
        {
            let nk = expr.nodes[i].children.len();
            let mut ch: Vec<usize> = Vec::new();
            let mut k: usize = 0;
            while k < nk
                invariant
                    expr.wf(),
                    i < expr.len(),
                    nk == expr.nodes@[i as int].children@.len(),
                    ids@.len() == i,
                    forall|u: int| 0 <= u < ids@.len() ==> (#[trigger] ids@[u]) < self.len(),
                    k <= nk,
                    ch@.len() == k,
                    forall|u: int| 0 <= u < ch@.len() ==> (#[trigger] ch@[u]) < self.len(),
                    forall|u: int|
                        0 <= u < k ==> #[trigger] ch@[u] == ids@[expr.nodes@[i as int].children@[u]
                            as int],
                decreases nk - k,
            {
                ch.push(ids[expr.nodes[i].children[k]]);
                k = k + 1;
            }
            let op = expr.nodes[i].op.clone();
            let ghost pre = *self;
            let ghost chv = ch@;
            let id = self.insert_node(op, ch);
            proof {
                assert forall|u: int|
                    0 <= u < ids@.len() implies root_of(self.p(), #[trigger] ids@[u] as int)
                    == ids@[u] as int by {
                    assert(root_of(pre.p(), ids@[u] as int) == ids@[u] as int);
                }
                // the freshly inserted position's shape
                let newkey = node_key(
                    self.p(),
                    (ENode { op: expr.nodes@[i as int].op, children: ch }),
                );
                assert(pos_key(*self, *expr, ids@.push(id), i as int).1 =~= newkey.1) by {
                    assert forall|k: int|
                        0 <= k < chv.len() implies root_of(self.p(), #[trigger] chv[k] as int)
                        == root_of(
                        self.p(),
                        ids@.push(id)[expr.nodes@[i as int].children@[k] as int] as int,
                    ) by {
                        assert(chv[k] == ids@[expr.nodes@[i as int].children@[k] as int]);
                    }
                }
                assert(class_contains_key(*self, id as int, pos_key(*self, *expr, ids@.push(id), i as int)));
                // earlier positions keep their shapes: roots are preserved and
                // the keys' entries are canonical ids
                assert forall|u: int|
                    0 <= u < ids@.len() implies class_contains_key(
                    *self,
                    #[trigger] ids@[u] as int,
                    pos_key(*self, *expr, ids@.push(id), u),
                ) by {
                    let key = pos_key(pre, *expr, ids@, u);
                    assert(class_contains_key(pre, ids@[u] as int, key));
                    assert(key_valid(key, pre.len() as int)) by {
                        assert forall|k: int|
                            0 <= k < key.1.len() implies 0 <= #[trigger] key.1[k]
                            < pre.len() by {
                            crate::uf::lemma_root_bounds(
                                pre.p(),
                                ids@[expr.nodes@[u].children@[k] as int] as int,
                            );
                        }
                    }
                    assert(root_of(pre.p(), ids@[u] as int) == ids@[u] as int);
                    assert(class_contains_key(
                        *self,
                        root_of(self.p(), ids@[u] as int),
                        rekey(self.p(), key),
                    ));
                    assert(rekey(self.p(), key) =~= pos_key(*self, *expr, ids@.push(id), u)) by {
                        assert forall|k: int|
                            0 <= k < key.1.len() implies root_of(self.p(), #[trigger] key.1[k])
                            == root_of(
                            self.p(),
                            ids@.push(id)[expr.nodes@[u].children@[k] as int] as int,
                        ) by {
                            let cid = ids@[expr.nodes@[u].children@[k] as int];
                            assert(key.1[k] == root_of(pre.p(), cid as int));
                            assert(root_of(pre.p(), cid as int) == cid as int);
                            assert(root_of(self.p(), cid as int) == cid as int);
                        }
                        assert(rekey(self.p(), key).1 =~= pos_key(
                            *self,
                            *expr,
                            ids@.push(id),
                            u,
                        ).1);
                    }
                }
            }
            ids.push(id);
            i = i + 1;
        }
        ids
    }
}

} // verus!
