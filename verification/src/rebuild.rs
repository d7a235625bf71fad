//! Congruence restoration: after a batch of merges, every node is
//! re-canonicalized and re-hashconsed, and classes that now share a canonical
//! shape are merged, to a fixpoint. A quiet pass (one that finds nothing to
//! merge) leaves the structure congruent: any two owned nodes with the same
//! operator and pairwise-equal child classes belong to the same class.

use vstd::prelude::*;

use crate::ache::ache_at;
use crate::expr::{copy_node, node_eq, node_like, ENode};
use crate::ses::{
    class_contains_key, coarsens, key_valid, lemma_key_same_roots, lemma_preserves_same,
    lemma_preserves_trans, node_key, node_valid, preserves_keys, rekey, EClass, Ses,
};
use crate::uf::root_of;

verus! {

/// Every child reference of the node is already a canonical id.
pub open spec fn node_canonical(p: Seq<usize>, n: ENode) -> bool {
    forall|k: int|
        0 <= k < n.children@.len() ==> root_of(p, #[trigger] n.children@[k] as int)
            == n.children@[k] as int
}

/// Every node owned by any class is canonicalized.
pub open spec fn all_canonical(s: Ses) -> bool {
    forall|c: int, j: int|
        0 <= c < s.classes@.len() && 0 <= j < s.classes@[c].nodes@.len() ==> node_canonical(
            s.p(),
            #[trigger] s.classes@[c].nodes@[j],
        )
}

/// The table has an entry for the shape of the node at `(c, j)`, owned by an
/// id equivalent to `c`.
pub open spec fn class_node_in_table(s: Ses, c: int, j: int) -> bool {
    exists|t: int|
        0 <= t < s.table@.len() && node_key(s.p(), s.table@[t].0) == node_key(
            s.p(),
            s.classes@[c].nodes@[j],
        ) && root_of(s.p(), s.table@[t].1 as int) == root_of(s.p(), c)
}

/// Every owned node's canonical shape is in the hashcons table, owned by that
/// node's own class.
pub open spec fn hashcons_complete(s: Ses) -> bool {
    forall|c: int, j: int|
        0 <= c < s.classes@.len() && 0 <= j < s.classes@[c].nodes@.len()
            ==> #[trigger] class_node_in_table(s, c, j)
}

/// At most one class owns a given canonical shape.
pub open spec fn hashcons_unique(s: Ses) -> bool {
    forall|t1: int, t2: int|
        0 <= t1 < s.table@.len() && 0 <= t2 < s.table@.len() && node_key(
            s.p(),
            #[trigger] s.table@[t1].0,
        ) == node_key(s.p(), #[trigger] s.table@[t2].0) ==> root_of(s.p(), s.table@[t1].1 as int)
            == root_of(s.p(), s.table@[t2].1 as int)
}

/// The congruence invariant: nodes with the same operator and pairwise-equal
/// canonicalized children belong to the same class.
pub open spec fn congruent(s: Ses) -> bool {
    forall|c1: int, j1: int, c2: int, j2: int|
        0 <= c1 < s.classes@.len() && 0 <= j1 < s.classes@[c1].nodes@.len() && 0 <= c2
            < s.classes@.len() && 0 <= j2 < s.classes@[c2].nodes@.len() && node_key(
            s.p(),
            #[trigger] s.classes@[c1].nodes@[j1],
        ) == node_key(s.p(), #[trigger] s.classes@[c2].nodes@[j2]) ==> root_of(s.p(), c1)
            == root_of(s.p(), c2)
}

/// Two canonicalized nodes with the same canonical shape are structurally
/// equal.
pub proof fn lemma_canonical_key_eq(p: Seq<usize>, n1: ENode, n2: ENode)
    requires
        node_canonical(p, n1),
        node_canonical(p, n2),
        node_key(p, n1) == node_key(p, n2),
    ensures
        n1.op@ == n2.op@,
        n1.children@ == n2.children@,
{
    let m1 = n1.children@.map_values(|c: usize| root_of(p, c as int));
    let m2 = n2.children@.map_values(|c: usize| root_of(p, c as int));
    assert(m1 == m2);
    assert(n1.children@.len() == n2.children@.len()) by {
        assert(m1.len() == m2.len());
    }
    assert forall|k: int|
        0 <= k < n1.children@.len() implies #[trigger] n1.children@[k] == n2.children@[k] by {
        assert(m1[k] == m2[k]);
    }
    assert(n1.children@ =~= n2.children@);
}

/// Congruence invariant: a complete and duplicate-free hashcons table forces
/// any two owned nodes with the same operator and pairwise-equal canonicalized
/// children classes into one class.
pub proof fn lemma_congruent_from_hashcons(s: Ses)
    requires
        hashcons_complete(s),
        hashcons_unique(s),
    ensures
        congruent(s),
{
    assert forall|c1: int, j1: int, c2: int, j2: int|
        0 <= c1 < s.classes@.len() && 0 <= j1 < s.classes@[c1].nodes@.len() && 0 <= c2
            < s.classes@.len() && 0 <= j2 < s.classes@[c2].nodes@.len() && node_key(
            s.p(),
            #[trigger] s.classes@[c1].nodes@[j1],
        ) == node_key(s.p(), #[trigger] s.classes@[c2].nodes@[j2]) implies root_of(s.p(), c1)
        == root_of(s.p(), c2) by {
        assert(class_node_in_table(s, c1, j1));
        assert(class_node_in_table(s, c2, j2));
        let t1 = choose|t: int|
            0 <= t < s.table@.len() && node_key(s.p(), s.table@[t].0) == node_key(
                s.p(),
                s.classes@[c1].nodes@[j1],
            ) && root_of(s.p(), s.table@[t].1 as int) == root_of(s.p(), c1);
        let t2 = choose|t: int|
            0 <= t < s.table@.len() && node_key(s.p(), s.table@[t].0) == node_key(
                s.p(),
                s.classes@[c2].nodes@[j2],
            ) && root_of(s.p(), s.table@[t].1 as int) == root_of(s.p(), c2);
        assert(node_key(s.p(), s.table@[t1].0) == node_key(s.p(), s.table@[t2].0));
    }
}

/// Looks a node up in a freshly built table by structural equality.
fn lookup_tab(tab: &Vec<(ENode, usize)>, n: &ENode) -> (r: Option<usize>)
    ensures
        match r {
            Some(id) => exists|t: int|
                0 <= t < tab@.len() && node_like(&#[trigger] tab@[t].0, n) && tab@[t].1 == id,
            None => forall|t: int| 0 <= t < tab@.len() ==> !node_like(&#[trigger] tab@[t].0, n),
        },
{
    let mut t: usize = 0;
    while t < tab.len()
        invariant
            t <= tab@.len(),
            forall|u: int| 0 <= u < t ==> !node_like(&#[trigger] tab@[u].0, n),
        decreases tab@.len() - t,
    {
        if node_eq(&tab[t].0, n) {
            return Some(tab[t].1);
        }
        t = t + 1;
    }
    None
}

impl Ses {
    /// Rewrites every owned node's children to canonical ids. No class, root,
    /// analysis value, or canonical shape changes.
    pub fn canonicalize_all(&mut self)
        requires
            old(self).wf(),
        ensures
            final(self).wf(),
            final(self).len() == old(self).len(),
            final(self).table@ == old(self).table@,
            forall|k: int| root_of(final(self).p(), k) == root_of(old(self).p(), k),
            final(self).classes@.len() == old(self).classes@.len(),
            forall|c: int|
                0 <= c < old(self).classes@.len() ==> (#[trigger] final(self).classes@[c]).ache
                    == old(self).classes@[c].ache && final(self).classes@[c].nodes@.len()
                    == old(self).classes@[c].nodes@.len(),
            forall|c: int, j: int|
                0 <= c < old(self).classes@.len() && 0 <= j < old(self).classes@[c].nodes@.len()
                    ==> node_key(old(self).p(), #[trigger] final(self).classes@[c].nodes@[j])
                    == node_key(old(self).p(), old(self).classes@[c].nodes@[j]) && node_canonical(
                    old(self).p(),
                    final(self).classes@[c].nodes@[j],
                ),
            preserves_keys(*old(self), *final(self)),
            coarsens(*old(self), *final(self)),
    {
        let ghost p0 = self.p();
        let n = self.classes.len();
        let mut c: usize = 0;
        while c < n
            invariant
                old(self).wf(),
                self.wf(),
                self.len() == old(self).len(),
                n == old(self).classes@.len(),
                self.classes@.len() == n,
                self.table@ == old(self).table@,
                forall|k: int| root_of(self.p(), k) == root_of(p0, k),
                p0 == old(self).p(),
                c <= n,
                forall|c2: int|
                    0 <= c2 < n ==> (#[trigger] self.classes@[c2]).ache
                        == old(self).classes@[c2].ache && self.classes@[c2].nodes@.len()
                        == old(self).classes@[c2].nodes@.len(),
                forall|c2: int| c <= c2 < n ==> #[trigger] self.classes@[c2] == old(
                    self,
                ).classes@[c2],
                forall|c2: int, j: int|
                    0 <= c2 < c && 0 <= j < self.classes@[c2].nodes@.len() ==> node_key(
                        p0,
                        #[trigger] self.classes@[c2].nodes@[j],
                    ) == node_key(p0, old(self).classes@[c2].nodes@[j]) && node_canonical(
                        p0,
                        self.classes@[c2].nodes@[j],
                    ),
            decreases n - c,
        {
            let m = self.classes[c].nodes.len();
            let mut newnodes: Vec<ENode> = Vec::new();
            let mut j: usize = 0;
            while j < m
                invariant
                    old(self).wf(),
                    self.wf(),
                    self.len() == old(self).len(),
                    n == old(self).classes@.len(),
                    self.classes@.len() == n,
                    self.table@ == old(self).table@,
                    forall|k: int| root_of(self.p(), k) == root_of(p0, k),
                    p0 == old(self).p(),
                    c < n,
                    forall|c2: int|
                        0 <= c2 < n ==> (#[trigger] self.classes@[c2]).ache
                            == old(self).classes@[c2].ache && self.classes@[c2].nodes@.len()
                            == old(self).classes@[c2].nodes@.len(),
                    forall|c2: int| c <= c2 < n ==> #[trigger] self.classes@[c2] == old(
                        self,
                    ).classes@[c2],
                    forall|c2: int, j2: int|
                        0 <= c2 < c && 0 <= j2 < self.classes@[c2].nodes@.len() ==> node_key(
                            p0,
                            #[trigger] self.classes@[c2].nodes@[j2],
                        ) == node_key(p0, old(self).classes@[c2].nodes@[j2]) && node_canonical(
                            p0,
                            self.classes@[c2].nodes@[j2],
                        ),
                    j <= m,
                    m == old(self).classes@[c as int].nodes@.len(),
                    newnodes@.len() == j,
                    forall|j2: int|
                        0 <= j2 < j ==> node_key(p0, #[trigger] newnodes@[j2]) == node_key(
                            p0,
                            old(self).classes@[c as int].nodes@[j2],
                        ) && node_canonical(p0, newnodes@[j2]) && node_valid(
                            newnodes@[j2],
                            old(self).len() as int,
                        ),
                decreases m - j,
            {
                let op = self.classes[c].nodes[j].op.clone();
                let ghost oldnode = self.classes@[c as int].nodes@[j as int];
                let cn = self.canonicalize_children_copy(c, j);
                proof {
                    assert(oldnode == old(self).classes@[c as int].nodes@[j as int]);
                    assert(node_valid(oldnode, old(self).len() as int));
                    assert forall|k: int|
                        0 <= k < cn@.len() implies root_of(p0, #[trigger] cn@[k] as int)
                        == cn@[k] as int by {
                        crate::uf::lemma_root_idem(p0, oldnode.children@[k] as int);
                    }
                }
                let newnode = ENode { op, children: cn };
                proof {
                    assert(node_key(p0, newnode) == node_key(p0, oldnode)) by {
                        assert(newnode.children@.map_values(|cc: usize| root_of(p0, cc as int))
                            =~= oldnode.children@.map_values(|cc: usize| root_of(p0, cc as int)));
                    }
                }
                newnodes.push(newnode);
                j = j + 1;
            }
            let ghost pre = *self;
            self.classes[c].nodes = newnodes;
            proof {
                assert(self.classes@[c as int].nodes@ == newnodes@);
                assert(self.classes@[c as int].ache == pre.classes@[c as int].ache);
                assert(forall|c2: int|
                    0 <= c2 < n && c2 != c as int ==> #[trigger] self.classes@[c2]
                        == pre.classes@[c2]);
                assert forall|c2: int, j2: int|
                    0 <= c2 < n && 0 <= j2 < old(self).classes@[c2].nodes@.len() implies node_valid(
                    #[trigger] self.classes@[c2].nodes@[j2],
                    old(self).len() as int,
                ) && node_key(p0, self.classes@[c2].nodes@[j2]) == node_key(
                    p0,
                    old(self).classes@[c2].nodes@[j2],
                ) by {
                    if c2 == c as int {
                        assert(self.classes@[c2].nodes@[j2] == newnodes@[j2]);
                    } else {
                        assert(self.classes@[c2] == pre.classes@[c2]);
                        if c2 > c as int {
                            assert(pre.classes@[c2] == old(self).classes@[c2]);
                        } else {
                            assert(node_key(p0, pre.classes@[c2].nodes@[j2]) == node_key(
                                p0,
                                old(self).classes@[c2].nodes@[j2],
                            ));
                        }
                        assert(node_valid(pre.classes@[c2].nodes@[j2], old(self).len() as int));
                    }
                }
                lemma_wf_mixed(*old(self), *self);
            }
            c = c + 1;
        }
        proof {
            lemma_preserves_mixed(*old(self), *self);
        }
    }

    /// Reads one node's children out of a class and canonicalizes them.
    fn canonicalize_children_copy(&mut self, c: usize, j: usize) -> (r: Vec<usize>)
        requires
            old(self).wf(),
            c < old(self).classes@.len(),
            j < old(self).classes@[c as int].nodes@.len(),
        ensures
            final(self).wf(),
            final(self).classes@ == old(self).classes@,
            final(self).table@ == old(self).table@,
            final(self).len() == old(self).len(),
            forall|k: int| root_of(final(self).p(), k) == root_of(old(self).p(), k),
            r@.len() == old(self).classes@[c as int].nodes@[j as int].children@.len(),
            forall|k: int|
                0 <= k < r@.len() ==> #[trigger] r@[k] as int == root_of(
                    old(self).p(),
                    old(self).classes@[c as int].nodes@[j as int].children@[k] as int,
                ),
            forall|k: int| 0 <= k < r@.len() ==> #[trigger] r@[k] < old(self).len(),
    {
        let ch = crate::expr::copy_usizes(&self.classes[c].nodes[j].children);
        self.canonicalize_children(&ch)
    }
}

/// How many ids below `n` are their own root: the number of live classes.
/// Merging strictly reduces it, which bounds the repair loop.
pub open spec fn roots_below(p: Seq<usize>, n: int) -> int
    decreases n,
{
    if n <= 0 {
        0
    } else {
        roots_below(p, n - 1) + (if root_of(p, n - 1) == n - 1 {
            1int
        } else {
            0int
        })
    }
}

pub proof fn lemma_roots_below_le(p: Seq<usize>, n: int)
    requires
        n >= 0,
    ensures
        0 <= roots_below(p, n) <= n,
    decreases n,
{
    if n > 0 {
        lemma_roots_below_le(p, n - 1);
    }
}

pub proof fn lemma_roots_below_pos(p: Seq<usize>, n: int)
    requires
        crate::uf::uf_wf(p),
        1 <= n,
        p.len() >= 1,
    ensures
        roots_below(p, n) >= 1,
    decreases n,
{
    if n == 1 {
        assert(p[0] as int <= 0);
        assert(root_of(p, 0) == 0);
        assert(roots_below(p, 0) == 0);
        assert(roots_below(p, 1) == 1);
    } else {
        lemma_roots_below_pos(p, n - 1);
        assert(roots_below(p, n) >= roots_below(p, n - 1));
    }
}

pub proof fn lemma_roots_below_same(p1: Seq<usize>, p2: Seq<usize>, n: int)
    requires
        forall|k: int| 0 <= k < n ==> #[trigger] root_of(p1, k) == root_of(p2, k),
    ensures
        roots_below(p1, n) == roots_below(p2, n),
    decreases n,
{
    if n > 0 {
        lemma_roots_below_same(p1, p2, n - 1);
    }
}

/// A merge of two distinct classes removes exactly one root.
pub proof fn lemma_roots_below_merge(p0: Seq<usize>, p1: Seq<usize>, a: int, b: int, n: int)
    requires
        crate::uf::uf_wf(p0),
        n == p0.len(),
        0 <= a < n,
        0 <= b < n,
        root_of(p0, a) != root_of(p0, b),
        forall|k: int|
            0 <= k < n ==> #[trigger] root_of(p1, k) == crate::uf::merged_root(p0, a, b, k),
    ensures
        roots_below(p1, n) == roots_below(p0, n) - 1,
{
    let ra = root_of(p0, a);
    let rb = root_of(p0, b);
    let small = if ra <= rb {
        ra
    } else {
        rb
    };
    let big = if ra <= rb {
        rb
    } else {
        ra
    };
    crate::uf::lemma_root_bounds(p0, a);
    crate::uf::lemma_root_bounds(p0, b);
    crate::uf::lemma_root_idem(p0, a);
    crate::uf::lemma_root_idem(p0, b);
    assert forall|i: int|
        0 <= i < n implies ((root_of(p1, i) == i) <==> (root_of(p0, i) == i && i != big)) by {
        crate::uf::lemma_root_idem(p0, i);
    }
    lemma_roots_below_split(p0, p1, big, n);
}

proof fn lemma_roots_below_split(p0: Seq<usize>, p1: Seq<usize>, big: int, n: int)
    requires
        0 <= big < n,
        root_of(p0, big) == big,
        forall|i: int|
            0 <= i < n ==> ((#[trigger] root_of(p1, i) == i) <==> (root_of(p0, i) == i && i
                != big)),
    ensures
        roots_below(p1, n) == roots_below(p0, n) - 1,
    decreases n,
{
    if big == n - 1 {
        lemma_roots_below_same_below(p0, p1, n - 1);
    } else {
        lemma_roots_below_split(p0, p1, big, n - 1);
    }
}

proof fn lemma_roots_below_same_below(p0: Seq<usize>, p1: Seq<usize>, n: int)
    requires
        forall|i: int|
            0 <= i < n ==> ((#[trigger] root_of(p1, i) == i) <==> (root_of(p0, i) == i)),
    ensures
        roots_below(p1, n) == roots_below(p0, n),
    decreases n,
{
    if n > 0 {
        lemma_roots_below_same_below(p0, p1, n - 1);
    }
}

/// No ache component at any id's canonical class decreases from `a` to `b`.
pub open spec fn ache_monotone(a: Ses, b: Ses) -> bool {
    forall|x: int, i: int|
        0 <= x < a.len() ==> ache_at(a.classes@[root_of(a.p(), x)].ache.vals@, i) <= #[trigger]
        ache_at(b.classes@[root_of(b.p(), x)].ache.vals@, i)
}

/// The table entry is a structural copy of a node owned by the class it
/// names.
pub open spec fn entry_ok(s: Ses, e: (ENode, usize)) -> bool {
    exists|j2: int|
        0 <= (e.1) < s.classes@.len() && 0 <= j2 < s.classes@[e.1 as int].nodes@.len()
            && node_like(&e.0, &s.classes@[e.1 as int].nodes@[j2])
}

/// With old classes' analysis values and old roots untouched, no ache
/// component decreases.
pub proof fn lemma_ache_monotone_same(a: Ses, b: Ses)
    requires
        a.uf.wf(),
        a.len() <= a.classes@.len(),
        forall|c: int| 0 <= c < a.len() ==> (#[trigger] b.classes@[c]).ache == a.classes@[c].ache,
        forall|k: int| 0 <= k < a.len() ==> #[trigger] root_of(b.p(), k) == root_of(a.p(), k),
    ensures
        ache_monotone(a, b),
{
    assert forall|x: int, i: int| 0 <= x < a.len() implies ache_at(
        a.classes@[root_of(a.p(), x)].ache.vals@,
        i,
    ) <= #[trigger] ache_at(b.classes@[root_of(b.p(), x)].ache.vals@, i) by {
        crate::uf::lemma_root_bounds(a.p(), x);
    }
}

/// Ache monotonicity composes across two mutation steps.
pub proof fn lemma_ache_monotone_trans(a: Ses, b: Ses, c: Ses)
    requires
        ache_monotone(a, b),
        ache_monotone(b, c),
        a.len() <= b.len(),
    ensures
        ache_monotone(a, c),
{
    assert forall|x: int, i: int| 0 <= x < a.len() implies ache_at(
        a.classes@[root_of(a.p(), x)].ache.vals@,
        i,
    ) <= #[trigger] ache_at(c.classes@[root_of(c.p(), x)].ache.vals@, i) by {
        assert(ache_at(a.classes@[root_of(a.p(), x)].ache.vals@, i) <= ache_at(
            b.classes@[root_of(b.p(), x)].ache.vals@,
            i,
        ));
        assert(ache_at(b.classes@[root_of(b.p(), x)].ache.vals@, i) <= ache_at(
            c.classes@[root_of(c.p(), x)].ache.vals@,
            i,
        ));
    }
}

/// Every fresh-table entry is a structural copy of a node owned by the class
/// it names.
pub open spec fn scan_entries_ok(s: Ses, tab: Seq<(ENode, usize)>) -> bool {
    forall|t: int| 0 <= t < tab.len() ==> entry_ok(s, #[trigger] tab[t])
}

/// No two fresh-table entries are structurally equal.
pub open spec fn tab_distinct(tab: Seq<(ENode, usize)>) -> bool {
    forall|t1: int, t2: int|
        0 <= t1 < t2 < tab.len() ==> !node_like(&#[trigger] tab[t1].0, &#[trigger] tab[t2].0)
}

/// The scanned node at `(c, j)` either already maps to its own class in the
/// fresh table, or a pending merge will join it with the class that owns the
/// matching entry.
pub open spec fn scan_covered(
    s: Ses,
    tab: Seq<(ENode, usize)>,
    pend: Seq<(usize, usize)>,
    c: int,
    j: int,
) -> bool {
    exists|t: int|
        0 <= t < tab.len() && node_like(&tab[t].0, &s.classes@[c].nodes@[j]) && (tab[t].1 as int
            == c || exists|q: int|
            0 <= q < pend.len() && (#[trigger] pend[q]).0 == tab[t].1 && pend[q].1 as int == c)
}

/// Re-derives the structural invariant for a state whose nodes changed only
/// up to canonical shape.
pub proof fn lemma_wf_mixed(a: Ses, b: Ses)
    requires
        a.wf(),
        b.uf.wf(),
        b.len() == a.len(),
        b.classes@.len() == a.classes@.len(),
        b.table@ == a.table@,
        forall|k: int| root_of(b.p(), k) == root_of(a.p(), k),
        forall|c: int|
            0 <= c < a.classes@.len() ==> #[trigger] b.classes@[c].nodes@.len()
                == a.classes@[c].nodes@.len(),
        forall|c: int, j: int|
            0 <= c < a.classes@.len() && 0 <= j < a.classes@[c].nodes@.len() ==> node_valid(
                #[trigger] b.classes@[c].nodes@[j],
                a.len() as int,
            ),
        forall|c: int, j: int|
            0 <= c < a.classes@.len() && 0 <= j < a.classes@[c].nodes@.len() ==> node_key(
                a.p(),
                #[trigger] b.classes@[c].nodes@[j],
            ) == node_key(a.p(), a.classes@[c].nodes@[j]),
    ensures
        b.wf(),
{
    assert forall|nd: ENode|
        node_valid(nd, a.len() as int) implies #[trigger] node_key(b.p(), nd) == node_key(
        a.p(),
        nd,
    ) by {
        lemma_key_same_roots(a.p(), b.p(), nd);
    }
    assert forall|t: int|
        0 <= t < b.table@.len() implies class_contains_key(
        b,
        b.root(#[trigger] b.table@[t].1 as int),
        node_key(b.p(), b.table@[t].0),
    ) by {
        let c0 = root_of(a.p(), a.table@[t].1 as int);
        crate::uf::lemma_root_bounds(a.p(), a.table@[t].1 as int);
        assert(class_contains_key(a, c0, node_key(a.p(), a.table@[t].0)));
        let j = choose|j: int|
            0 <= j < a.classes@[c0].nodes@.len() && node_key(a.p(), a.classes@[c0].nodes@[j])
                == node_key(a.p(), a.table@[t].0);
        assert(node_key(b.p(), b.classes@[c0].nodes@[j]) == node_key(b.p(), b.table@[t].0));
        assert(class_contains_key(b, c0, node_key(b.p(), b.table@[t].0)));
    }
}

/// Key preservation for a state whose nodes changed only up to canonical
/// shape, with roots untouched.
pub proof fn lemma_preserves_mixed(a: Ses, b: Ses)
    requires
        a.wf(),
        b.uf.wf(),
        b.len() == a.len(),
        b.classes@.len() == a.classes@.len(),
        forall|k: int| root_of(b.p(), k) == root_of(a.p(), k),
        forall|c: int|
            0 <= c < a.classes@.len() ==> #[trigger] b.classes@[c].nodes@.len()
                == a.classes@[c].nodes@.len(),
        forall|c: int, j: int|
            0 <= c < a.classes@.len() && 0 <= j < a.classes@[c].nodes@.len() ==> node_key(
                a.p(),
                #[trigger] b.classes@[c].nodes@[j],
            ) == node_key(a.p(), a.classes@[c].nodes@[j]),
    ensures
        coarsens(a, b),
        preserves_keys(a, b),
{
    assert forall|cl: int, key: (Seq<char>, Seq<int>)|
        0 <= cl < a.len() && root_of(a.p(), cl) == cl && key_valid(key, a.len() as int)
            && #[trigger] class_contains_key(a, cl, key) implies class_contains_key(
        b,
        root_of(b.p(), cl),
        rekey(b.p(), key),
    ) by {
        let j = choose|j: int|
            0 <= j < a.classes@[cl].nodes@.len() && node_key(a.p(), a.classes@[cl].nodes@[j])
                == key;
        let w = a.classes@[cl].nodes@[j];
        lemma_key_same_roots(a.p(), b.p(), b.classes@[cl].nodes@[j]);
        assert forall|q: int| 0 <= q < key.1.len() implies root_of(a.p(), #[trigger] key.1[q])
            == key.1[q] by {
            crate::uf::lemma_root_idem(a.p(), w.children@[q] as int);
        }
        assert(key.1.map_values(|r: int| root_of(b.p(), r)) =~= key.1);
        assert(rekey(b.p(), key) == key);
        assert(node_key(b.p(), b.classes@[cl].nodes@[j]) == key);
    }
}

/// A quiet scan leaves the fresh table complete: every owned node's shape is
/// in it, owned by that node's class.
#[verifier::rlimit(100)]
proof fn lemma_quiet_complete(s1: Ses, s2: Ses, pending: Seq<(usize, usize)>)
    requires
        s1.wf(),
        all_canonical(s1),
        s2.wf(),
        s2.classes@ == s1.classes@,
        s2.p() == s1.p(),
        s2.len() == s1.len(),
        forall|c2: int, j2: int|
            #![trigger scan_covered(s1, s2.table@, pending, c2, j2)]
            0 <= c2 < s1.classes@.len() && 0 <= j2 < s1.classes@[c2].nodes@.len() ==> scan_covered(
                s1,
                s2.table@,
                pending,
                c2,
                j2,
            ),
        pending.len() == 0,
    ensures
        hashcons_complete(s2),
{
        assert forall|c2: int, j2: int|
            0 <= c2 < s2.classes@.len() && 0 <= j2
                < s2.classes@[c2].nodes@.len() implies #[trigger] class_node_in_table(
            s2,
            c2,
            j2,
        ) by {
            assert(scan_covered(s1, s2.table@, pending, c2, j2));
            let t = choose|t: int|
                0 <= t < s2.table@.len() && node_like(
                    &s2.table@[t].0,
                    &s1.classes@[c2].nodes@[j2],
                ) && (s2.table@[t].1 as int == c2 || exists|q: int|
                    0 <= q < pending.len() && (#[trigger] pending[q]).0
                        == s2.table@[t].1 && pending[q].1 as int == c2);
            assert(s2.table@[t].1 as int == c2);
            assert(root_of(s2.p(), c2) == c2);
            assert(0 <= t < s2.table@.len() && node_key(s2.p(), s2.table@[t].0)
                == node_key(s2.p(), s2.classes@[c2].nodes@[j2]) && root_of(
                s2.p(),
                s2.table@[t].1 as int,
            ) == root_of(s2.p(), c2));
            assert(class_node_in_table(s2, c2, j2));
        }
    assert(hashcons_complete(s2));
}

/// A quiet scan leaves the fresh table duplicate-free at the level of
/// canonical shapes.
#[verifier::rlimit(100)]
proof fn lemma_quiet_unique(s1: Ses, s2: Ses)
    requires
        s1.wf(),
        all_canonical(s1),
        s2.wf(),
        s2.classes@ == s1.classes@,
        s2.p() == s1.p(),
        s2.len() == s1.len(),
        scan_entries_ok(s1, s2.table@),
        tab_distinct(s2.table@),
    ensures
        hashcons_unique(s2),
        all_canonical(s2),
{
        assert forall|t1: int, t2: int|
            0 <= t1 < s2.table@.len() && 0 <= t2 < s2.table@.len() && node_key(
                s2.p(),
                #[trigger] s2.table@[t1].0,
            ) == node_key(s2.p(), #[trigger] s2.table@[t2].0) implies root_of(
            s2.p(),
            s2.table@[t1].1 as int,
        ) == root_of(s2.p(), s2.table@[t2].1 as int) by {
            assert(entry_ok(s1, s2.table@[t1]));
            assert(entry_ok(s1, s2.table@[t2]));
            let j1 = choose|j2: int|
                0 <= (s2.table@[t1].1) < s1.classes@.len() && 0 <= j2
                    < s1.classes@[s2.table@[t1].1 as int].nodes@.len() && node_like(
                    &s2.table@[t1].0,
                    &s1.classes@[s2.table@[t1].1 as int].nodes@[j2],
                );
            let j2b = choose|j2: int|
                0 <= (s2.table@[t2].1) < s1.classes@.len() && 0 <= j2
                    < s1.classes@[s2.table@[t2].1 as int].nodes@.len() && node_like(
                    &s2.table@[t2].0,
                    &s1.classes@[s2.table@[t2].1 as int].nodes@[j2],
                );
            assert(node_canonical(s2.p(), s2.table@[t1].0)) by {
                assert(node_canonical(
                    s1.p(),
                    s1.classes@[s2.table@[t1].1 as int].nodes@[j1],
                ));
            }
            assert(node_canonical(s2.p(), s2.table@[t2].0)) by {
                assert(node_canonical(
                    s1.p(),
                    s1.classes@[s2.table@[t2].1 as int].nodes@[j2b],
                ));
            }
            lemma_canonical_key_eq(s2.p(), s2.table@[t1].0, s2.table@[t2].0);
            if t1 < t2 {
                assert(!node_like(&s2.table@[t1].0, &s2.table@[t2].0));
                assert(node_like(&s2.table@[t1].0, &s2.table@[t2].0));
                assert(false);
            } else if t2 < t1 {
                assert(!node_like(&s2.table@[t2].0, &s2.table@[t1].0));
                assert(node_like(&s2.table@[t2].0, &s2.table@[t1].0));
                assert(false);
            }
        }
    assert(hashcons_unique(s2));
    assert(all_canonical(s2));
}

impl Ses {
    /// Scans every owned node against a fresh table: the first class owning
    /// each canonical shape claims the table entry; any later class with the
    /// same shape is recorded as a pending merge.
    #[verifier::rlimit(60)]
    fn scan_classes(&self) -> (r: (Vec<(ENode, usize)>, Vec<(usize, usize)>))
        requires
            self.wf(),
            all_canonical(*self),
        ensures
            scan_entries_ok(*self, r.0@),
            tab_distinct(r.0@),
            forall|q: int|
                0 <= q < r.1@.len() ==> (#[trigger] r.1@[q]).0 < self.classes@.len()
                    && r.1@[q].1 < self.classes@.len() && r.1@[q].0 != r.1@[q].1 && root_of(
                    self.p(),
                    r.1@[q].0 as int,
                ) == r.1@[q].0 as int && root_of(self.p(), r.1@[q].1 as int) == r.1@[q].1 as int,
            forall|c2: int, j2: int|
                #![trigger scan_covered(*self, r.0@, r.1@, c2, j2)]
                0 <= c2 < self.classes@.len() && 0 <= j2 < self.classes@[c2].nodes@.len()
                    ==> scan_covered(*self, r.0@, r.1@, c2, j2),
    {
        let ghost s1 = *self;
        let n = self.classes.len();
        let mut newtab: Vec<(ENode, usize)> = Vec::new();
        let mut pending: Vec<(usize, usize)> = Vec::new();
        let mut c: usize = 0;
        while c < n
            invariant
                *self == s1,
                s1.wf(),
                all_canonical(s1),
                n == s1.classes@.len(),
                c <= n,
                scan_entries_ok(s1, newtab@),
                tab_distinct(newtab@),
                forall|q: int|
                    0 <= q < pending@.len() ==> (#[trigger] pending@[q]).0 < n && pending@[q].1 < n
                        && pending@[q].0 != pending@[q].1 && root_of(
                        s1.p(),
                        pending@[q].0 as int,
                    ) == pending@[q].0 as int && root_of(s1.p(), pending@[q].1 as int)
                        == pending@[q].1 as int,
                forall|c2: int, j2: int|
                    #![trigger scan_covered(s1, newtab@, pending@, c2, j2)]
                    0 <= c2 < c && 0 <= j2 < s1.classes@[c2].nodes@.len() ==> scan_covered(
                        s1,
                        newtab@,
                        pending@,
                        c2,
                        j2,
                    ),
            decreases n - c,
        {
            let m = self.classes[c].nodes.len();
            let mut j: usize = 0;
            while j < m
                invariant
                    *self == s1,
                    s1.wf(),
                    all_canonical(s1),
                    n == s1.classes@.len(),
                    c < n,
                    m == s1.classes@[c as int].nodes@.len(),
                    j <= m,
                    scan_entries_ok(s1, newtab@),
                    tab_distinct(newtab@),
                    forall|q: int|
                        0 <= q < pending@.len() ==> (#[trigger] pending@[q]).0 < n
                            && pending@[q].1 < n && pending@[q].0 != pending@[q].1 && root_of(
                            s1.p(),
                            pending@[q].0 as int,
                        ) == pending@[q].0 as int && root_of(s1.p(), pending@[q].1 as int)
                            == pending@[q].1 as int,
                    forall|c2: int, j2: int|
                        #![trigger scan_covered(s1, newtab@, pending@, c2, j2)]
                        0 <= c2 < c && 0 <= j2 < s1.classes@[c2].nodes@.len() ==> scan_covered(
                            s1,
                            newtab@,
                            pending@,
                            c2,
                            j2,
                        ),
                    forall|j2: int|
                        #![trigger scan_covered(s1, newtab@, pending@, c as int, j2)]
                        0 <= j2 < j ==> scan_covered(
                            s1,
                            newtab@,
                            pending@,
                            c as int,
                            j2,
                        ),
                decreases m - j,
            {
                let node = copy_node(&self.classes[c].nodes[j]);
                let ghost tab0 = newtab@;
                let ghost pend0 = pending@;
                let ghost srcnode = s1.classes@[c as int].nodes@[j as int];
                match lookup_tab(&newtab, &node) {
                    Some(d) => {
                        proof {
                            let t = choose|t: int|
                                0 <= t < newtab@.len() && node_like(&newtab@[t].0, &node)
                                    && newtab@[t].1 == d;
                            assert(entry_ok(s1, newtab@[t]));
                            let j2 = choose|j2: int|
                                0 <= (newtab@[t].1) < s1.classes@.len() && 0 <= j2
                                    < s1.classes@[newtab@[t].1 as int].nodes@.len() && node_like(
                                    &newtab@[t].0,
                                    &s1.classes@[newtab@[t].1 as int].nodes@[j2],
                                );
                            assert(s1.classes@[d as int].nodes@.len() > 0);
                            assert(root_of(s1.p(), d as int) == d as int);
                            assert(s1.classes@[c as int].nodes@.len() > 0);
                            assert(root_of(s1.p(), c as int) == c as int);
                            assert(node_like(&newtab@[t].0, &srcnode));
                        }
                        if d != c {
                            pending.push((d, c));
                            proof {
                                let t = choose|t: int|
                                    0 <= t < newtab@.len() && node_like(&newtab@[t].0, &node)
                                        && newtab@[t].1 == d;
                                assert(pending@[pending@.len() - 1] == (d, c));
                                assert(node_like(&newtab@[t].0, &srcnode));
                                assert(scan_covered(s1, newtab@, pending@, c as int, j as int));
                            }
                        } else {
                            proof {
                                let t = choose|t: int|
                                    0 <= t < newtab@.len() && node_like(&newtab@[t].0, &node)
                                        && newtab@[t].1 == d;
                                assert(node_like(&newtab@[t].0, &srcnode));
                                assert(scan_covered(s1, newtab@, pending@, c as int, j as int));
                            }
                        }
                    },
                    None => {
                        newtab.push((node, c));
                        proof {
                            let tnew = tab0.len() as int;
                            assert(newtab@[tnew].1 == c);
                            assert(node_like(&newtab@[tnew].0, &srcnode));
                            assert(node_like(
                                &newtab@[tnew].0,
                                &s1.classes@[newtab@[tnew].1 as int].nodes@[j as int],
                            ));
                            assert(entry_ok(s1, newtab@[tnew]));
                            assert forall|t: int|
                                0 <= t < newtab@.len() implies entry_ok(
                                s1,
                                #[trigger] newtab@[t],
                            ) by {
                                if t < tab0.len() {
                                    assert(newtab@[t] == tab0[t]);
                                    assert(entry_ok(s1, tab0[t]));
                                }
                            }
                            assert(scan_covered(s1, newtab@, pending@, c as int, j as int));
                            assert forall|t1: int, t2: int|
                                0 <= t1 < t2 < newtab@.len() implies !node_like(
                                &#[trigger] newtab@[t1].0,
                                &#[trigger] newtab@[t2].0,
                            ) by {
                                if t2 == tab0.len() {
                                    assert(!node_like(&tab0[t1].0, &node));
                                }
                            }
                        }
                    },
                }
                proof {
                    assert forall|c2: int, j2: int|
                        #![trigger scan_covered(s1, newtab@, pending@, c2, j2)]
                        (0 <= c2 < c && 0 <= j2 < s1.classes@[c2].nodes@.len()) || (c2 == c as int
                            && 0 <= j2 <= j as int && j2 < s1.classes@[c2].nodes@.len()) implies scan_covered(
                        s1,
                        newtab@,
                        pending@,
                        c2,
                        j2,
                    ) by {
                        if c2 == c as int && j2 == j as int {
                            assert(scan_covered(s1, newtab@, pending@, c2, j2));
                        } else {
                            assert(scan_covered(s1, tab0, pend0, c2, j2));
                            let t = choose|t: int|
                                0 <= t < tab0.len() && node_like(
                                    &tab0[t].0,
                                    &s1.classes@[c2].nodes@[j2],
                                ) && (tab0[t].1 as int == c2 || exists|q: int|
                                    0 <= q < pend0.len() && (#[trigger] pend0[q]).0 == tab0[t].1
                                        && pend0[q].1 as int == c2);
                            assert(newtab@[t] == tab0[t]);
                            if tab0[t].1 as int != c2 {
                                let q = choose|q: int|
                                    0 <= q < pend0.len() && (#[trigger] pend0[q]).0 == tab0[t].1
                                        && pend0[q].1 as int == c2;
                                assert(pending@[q] == pend0[q]);
                            }
                        }
                    }
                }
                j = j + 1;
            }
            c = c + 1;
        }
        (newtab, pending)
    }

    /// One repair pass: canonicalize every node, rebuild the hashcons table
    /// fresh, and merge every pair of classes found to share a canonical
    /// shape. Returns whether the pass was quiet (nothing left to merge); a
    /// quiet pass leaves a complete and duplicate-free table over
    /// canonicalized nodes.
    #[verifier::rlimit(60)]
    pub fn rebuild_pass(&mut self) -> (quiet: bool)
        requires
            old(self).wf(),
        ensures
            final(self).wf(),
            final(self).len() == old(self).len(),
            coarsens(*old(self), *final(self)),
            preserves_keys(*old(self), *final(self)),
            ache_monotone(*old(self), *final(self)),
            quiet ==> all_canonical(*final(self)) && hashcons_complete(*final(self))
                && hashcons_unique(*final(self)),
            !quiet ==> roots_below(final(self).p(), final(self).len() as int) < roots_below(
                old(self).p(),
                old(self).len() as int,
            ),
    {
        self.canonicalize_all();
        proof {
            assert forall|c: int, j: int|
                0 <= c < self.classes@.len() && 0 <= j
                    < self.classes@[c].nodes@.len() implies node_canonical(
                self.p(),
                #[trigger] self.classes@[c].nodes@[j],
            ) by {
                assert(node_canonical(old(self).p(), self.classes@[c].nodes@[j]));
                assert(node_valid(self.classes@[c].nodes@[j], self.len() as int));
            }
        }
        let ghost s1 = *self;
        let n = self.classes.len();
        let scanned = self.scan_classes();
        let newtab = scanned.0;
        let pending = scanned.1;
        self.table = newtab;
        proof {
            assert forall|t: int|
                0 <= t < self.table@.len() implies (#[trigger] self.table@[t].1) < self.len()
                    && node_valid(self.table@[t].0, self.len() as int) by {
                let j2 = choose|j2: int|
                    0 <= (self.table@[t].1) < s1.classes@.len() && 0 <= j2
                        < s1.classes@[self.table@[t].1 as int].nodes@.len() && node_like(
                        &self.table@[t].0,
                        &s1.classes@[self.table@[t].1 as int].nodes@[j2],
                    );
                assert(node_valid(
                    s1.classes@[self.table@[t].1 as int].nodes@[j2],
                    s1.len() as int,
                ));
            }
            assert forall|t: int|
                0 <= t < self.table@.len() implies class_contains_key(
                *self,
                self.root(#[trigger] self.table@[t].1 as int),
                node_key(self.p(), self.table@[t].0),
            ) by {
                let d = self.table@[t].1 as int;
                let j2 = choose|j2: int|
                    0 <= (self.table@[t].1) < s1.classes@.len() && 0 <= j2
                        < s1.classes@[d].nodes@.len() && node_like(
                        &self.table@[t].0,
                        &s1.classes@[d].nodes@[j2],
                    );
                assert(self.root(d) == d);
                assert(node_key(self.p(), self.classes@[d].nodes@[j2]) == node_key(
                    self.p(),
                    self.table@[t].0,
                ));
                assert(class_contains_key(*self, d, node_key(self.p(), self.table@[t].0)));
            }
            assert(self.wf());
            lemma_preserves_same(s1, *self);
        }
        let quiet = pending.len() == 0;
        let ghost s2 = *self;
        proof {
            if quiet {
                lemma_quiet_complete(s1, s2, pending@);
                lemma_quiet_unique(s1, s2);
            }
        }
        proof {
            lemma_preserves_same(s2, s2);
            assert(coarsens(s2, s2));
            assert forall|x: int, i: int| 0 <= x < s2.len() implies ache_at(
                s2.classes@[root_of(s2.p(), x)].ache.vals@,
                i,
            ) <= #[trigger] ache_at(s2.classes@[root_of(s2.p(), x)].ache.vals@, i) by {}
        }
        let mut q: usize = 0;
        while q < pending.len()
            invariant
                s2.wf(),
                self.wf(),
                self.len() == s2.len(),
                s2.len() == s1.len(),
                q <= pending@.len(),
                quiet == (pending@.len() == 0),
                forall|qq: int|
                    0 <= qq < pending@.len() ==> (#[trigger] pending@[qq]).0 < s2.len()
                        && pending@[qq].1 < s2.len() && pending@[qq].0 != pending@[qq].1
                        && root_of(s1.p(), pending@[qq].0 as int) == pending@[qq].0 as int
                        && root_of(s1.p(), pending@[qq].1 as int) == pending@[qq].1 as int,
                coarsens(s2, *self),
                preserves_keys(s2, *self),
                ache_monotone(s2, *self),
                s2.p() == s1.p(),
                q == 0 ==> *self == s2,
                q > 0 ==> roots_below(self.p(), s2.len() as int) < roots_below(
                    s2.p(),
                    s2.len() as int,
                ),
            decreases pending@.len() - q,
        {
            let pr = pending[q];
            let ghost mid = *self;
            let merged = self.union(pr.0, pr.1);
            proof {
                lemma_preserves_trans(s2, mid, *self);
                if q == 0 {
                    assert(mid == s2);
                    assert(root_of(mid.p(), pr.0 as int) != root_of(mid.p(), pr.1 as int));
                    assert(merged);
                    lemma_roots_below_merge(
                        mid.p(),
                        self.p(),
                        pr.0 as int,
                        pr.1 as int,
                        mid.len() as int,
                    );
                } else {
                    if merged {
                        lemma_roots_below_merge(
                            mid.p(),
                            self.p(),
                            pr.0 as int,
                            pr.1 as int,
                            mid.len() as int,
                        );
                        assert(roots_below(mid.p(), s2.len() as int) < roots_below(
                            s2.p(),
                            s2.len() as int,
                        ));
                    } else {
                        assert forall|k: int| 0 <= k < mid.len() implies #[trigger] root_of(
                            self.p(),
                            k,
                        ) == root_of(mid.p(), k) by {}
                        lemma_roots_below_same(self.p(), mid.p(), s2.len() as int);
                    }
                }
                assert forall|x: int, i: int| 0 <= x < s2.len() implies ache_at(
                    s2.classes@[root_of(s2.p(), x)].ache.vals@,
                    i,
                ) <= #[trigger] ache_at(self.classes@[root_of(self.p(), x)].ache.vals@, i) by {
                    assert(ache_at(s2.classes@[root_of(s2.p(), x)].ache.vals@, i) <= ache_at(
                        mid.classes@[root_of(mid.p(), x)].ache.vals@,
                        i,
                    ));
                    assert(ache_at(mid.classes@[root_of(mid.p(), x)].ache.vals@, i) <= ache_at(
                        self.classes@[root_of(self.p(), x)].ache.vals@,
                        i,
                    ));
                }
                assert(quiet ==> pending@.len() == 0);
            }
            q = q + 1;
        }
        proof {
            // compose: old -> s1 (canonicalize) -> s2 (fresh table) -> final
            lemma_preserves_trans(*old(self), s1, s2);
            lemma_preserves_trans(*old(self), s2, *self);
            assert forall|x: int, i: int| 0 <= x < old(self).len() implies ache_at(
                old(self).classes@[root_of(old(self).p(), x)].ache.vals@,
                i,
            ) <= #[trigger] ache_at(self.classes@[root_of(self.p(), x)].ache.vals@, i) by {
                crate::uf::lemma_root_bounds(old(self).p(), x);
                assert(root_of(s2.p(), x) == root_of(old(self).p(), x));
                assert(s2.classes@[root_of(s2.p(), x)].ache == old(self).classes@[root_of(
                    old(self).p(),
                    x,
                )].ache);
                assert(ache_at(s2.classes@[root_of(s2.p(), x)].ache.vals@, i) <= ache_at(
                    self.classes@[root_of(self.p(), x)].ache.vals@,
                    i,
                ));
            }
            if quiet {
                assert(pending@.len() == 0);
                assert(*self == s2);
            } else {
                lemma_roots_below_same(s2.p(), old(self).p(), old(self).len() as int);
                assert(roots_below(self.p(), self.len() as int) < roots_below(
                    old(self).p(),
                    old(self).len() as int,
                ));
            }
        }
        quiet
    }

    /// Restores the congruence invariant after a batch of unions: repair
    /// passes run to a fixpoint, witnessed by a quiet pass. Afterwards any two
    /// owned nodes with the same operator and pairwise-equal canonicalized
    /// children classes resolve to the same class, every node is
    /// canonicalized, and the hashcons table is complete and duplicate-free.
    /// Equivalences only coarsen, every owned shape is kept, and no ache
    /// component decreases at any id's canonical class.
    pub fn rebuild(&mut self)
        requires
            old(self).wf(),
        ensures
            final(self).wf(),
            final(self).len() == old(self).len(),
            coarsens(*old(self), *final(self)),
            preserves_keys(*old(self), *final(self)),
            ache_monotone(*old(self), *final(self)),
            all_canonical(*final(self)),
            hashcons_complete(*final(self)),
            hashcons_unique(*final(self)),
            congruent(*final(self)),
    {
        let mut fuel = self.classes.len();
        let mut quiet = self.rebuild_pass();
        proof {
            if !quiet {
                lemma_roots_below_le(old(self).p(), old(self).len() as int);
                lemma_roots_below_le(self.p(), self.len() as int);
                lemma_roots_below_pos(self.p(), self.len() as int);
            }
        }
        while !quiet
            invariant
                old(self).wf(),
                self.wf(),
                self.len() == old(self).len(),
                fuel <= old(self).len(),
                coarsens(*old(self), *self),
                preserves_keys(*old(self), *self),
                ache_monotone(*old(self), *self),
                quiet ==> all_canonical(*self) && hashcons_complete(*self) && hashcons_unique(
                    *self,
                ),
                !quiet ==> 1 <= roots_below(self.p(), self.len() as int) <= fuel,
            decreases fuel,
        {
            let ghost mid = *self;
            quiet = self.rebuild_pass();
            fuel = fuel - 1;
            proof {
                if !quiet {
                    lemma_roots_below_pos(self.p(), self.len() as int);
                }
                lemma_preserves_trans(*old(self), mid, *self);
                assert forall|x: int, i: int| 0 <= x < old(self).len() implies ache_at(
                    old(self).classes@[root_of(old(self).p(), x)].ache.vals@,
                    i,
                ) <= #[trigger] ache_at(self.classes@[root_of(self.p(), x)].ache.vals@, i) by {
                    assert(ache_at(
                        old(self).classes@[root_of(old(self).p(), x)].ache.vals@,
                        i,
                    ) <= ache_at(mid.classes@[root_of(mid.p(), x)].ache.vals@, i));
                    assert(ache_at(mid.classes@[root_of(mid.p(), x)].ache.vals@, i) <= ache_at(
                        self.classes@[root_of(self.p(), x)].ache.vals@,
                        i,
                    ));
                }
            }
        }
        proof {
            lemma_congruent_from_hashcons(*self);
        }
    }
}

} // verus!
