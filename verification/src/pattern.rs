//! Rewrite rules: a search pattern and a replacement template over named
//! variables, matched against the equivalence-class graph.

use vstd::prelude::*;

use crate::rebuild::{
    ache_monotone, all_canonical, lemma_ache_monotone_same, lemma_ache_monotone_trans,
};
use crate::ses::{coarsens, lemma_preserves_same, lemma_preserves_trans, preserves_keys, Ses};
use crate::strs::str_eq;
use crate::uf::root_of;

verus! {

/// One pattern node: a variable, or an operator applied to earlier pattern
/// positions.
pub enum PNode {
    Var(usize),
    App { op: String, children: Vec<usize> },
}

/// A pattern in flat prefix form; the last node is the root. `vars` holds the
/// variable names, and every `Var` index points into it.
pub struct Pattern {
    pub vars: Vec<String>,
    pub nodes: Vec<PNode>,
}

pub open spec fn pnode_wf(n: PNode, i: int, nvars: int) -> bool {
    match n {
        PNode::Var(v) => (v as int) < nvars,
        PNode::App { op, children } => forall|k: int|
            0 <= k < children@.len() ==> #[trigger] children@[k] < i,
    }
}

/// The pattern node is the variable with index `v`.
pub open spec fn is_var(n: PNode, v: int) -> bool {
    n matches PNode::Var(w) && w as int == v
}

/// The pattern node applies `op` to the single earlier position `k0`.
pub open spec fn is_app1(n: PNode, op: Seq<char>, k0: int) -> bool {
    n matches PNode::App { op: o, children: ch } && o@ == op && ch@.len() == 1 && ch@[0] as int
        == k0
}

/// The pattern node applies `op` to the earlier positions `k0` and `k1`.
pub open spec fn is_app2(n: PNode, op: Seq<char>, k0: int, k1: int) -> bool {
    n matches PNode::App { op: o, children: ch } && o@ == op && ch@.len() == 2 && ch@[0] as int
        == k0 && ch@[1] as int == k1
}

pub proof fn lemma_wf_var(n: PNode, v: int, i: int, nvars: int)
    requires
        is_var(n, v),
        0 <= v < nvars,
    ensures
        pnode_wf(n, i, nvars),
{
}

pub proof fn lemma_wf_app1(n: PNode, op: Seq<char>, k0: int, i: int, nvars: int)
    requires
        is_app1(n, op, k0),
        0 <= k0 < i,
    ensures
        pnode_wf(n, i, nvars),
{
    let ch = n->App_children;
    assert forall|k: int| 0 <= k < ch@.len() implies #[trigger] ch@[k] < i by {
        assert(k == 0);
    }
}

pub proof fn lemma_wf_app2(n: PNode, op: Seq<char>, k0: int, k1: int, i: int, nvars: int)
    requires
        is_app2(n, op, k0, k1),
        0 <= k0 < i,
        0 <= k1 < i,
    ensures
        pnode_wf(n, i, nvars),
{
    let ch = n->App_children;
    assert forall|k: int| 0 <= k < ch@.len() implies #[trigger] ch@[k] < i by {
        if k != 0 {
            assert(k == 1);
        }
    }
}

impl Pattern {
    pub open spec fn wf(&self) -> bool {
        &&& self.nodes@.len() >= 1
        &&& forall|i: int|
            0 <= i < self.nodes@.len() ==> pnode_wf(
                #[trigger] self.nodes@[i],
                i,
                self.vars@.len() as int,
            )
    }
}

/// An immutable rewrite rule: a name, a left pattern searched for, and a right
/// pattern instantiated with the left pattern's variable bindings. Both
/// patterns share one variable table.
pub struct Rule {
    pub name: String,
    pub lhs: Pattern,
    pub rhs: Pattern,
}

impl Rule {
    pub open spec fn wf(&self) -> bool {
        &&& self.lhs.wf()
        &&& self.rhs.wf()
        &&& self.lhs.vars@.len() == self.rhs.vars@.len()
    }
}

/// One match: the class a rule's left pattern matched, plus a consistent
/// variable-to-class binding.
pub struct Match {
    pub eclass: usize,
    pub subst: Vec<usize>,
}

pub open spec fn match_wf(m: Match, nvars: int, len: int) -> bool {
    &&& m.eclass < len
    &&& m.subst@.len() == nvars
    &&& forall|v: int| 0 <= v < m.subst@.len() ==> #[trigger] m.subst@[v] < len
}

/// A partial substitution is valid when every binding is a class id.
pub open spec fn partial_wf(s: Seq<Option<usize>>, nvars: int, len: int) -> bool {
    &&& s.len() == nvars
    &&& forall|v: int|
        0 <= v < s.len() ==> ((#[trigger] s[v]) matches Some(id) ==> id < len)
}

pub open spec fn partials_wf(ss: Seq<Vec<Option<usize>>>, nvars: int, len: int) -> bool {
    forall|q: int| 0 <= q < ss.len() ==> partial_wf((#[trigger] ss[q])@, nvars, len)
}

/// The (partial) substitution makes the pattern subtree at `pidx` match
/// class `class`: a variable is bound exactly to the class, an application is
/// realized by some member node of the class whose children match the
/// pattern's children.
pub open spec fn pat_matches_p(
    s: Ses,
    pat: Pattern,
    pidx: int,
    class: int,
    sub: Seq<Option<usize>>,
) -> bool
    decreases pidx, 1int, 0int,
{
    if 0 <= pidx < pat.nodes@.len() {
        match pat.nodes@[pidx] {
            PNode::Var(v) => sub[v as int] matches Some(b) && b as int == class,
            PNode::App { op, children } => exists|j: int|
                0 <= j < s.classes@[class].nodes@.len() && (#[trigger] s.classes@[class].nodes@[j])
                    .op@ == op@ && s.classes@[class].nodes@[j].children@.len() == children@.len()
                    && pat_matches_kids(
                    s,
                    pat,
                    children@,
                    s.classes@[class].nodes@[j].children@,
                    0,
                    pidx,
                    sub,
                ),
        }
    } else {
        true
    }
}

pub open spec fn pat_matches_kids(
    s: Ses,
    pat: Pattern,
    pch: Seq<usize>,
    nch: Seq<usize>,
    k: int,
    par: int,
    sub: Seq<Option<usize>>,
) -> bool
    decreases par, 0int, pch.len() - k,
{
    if 0 <= k < pch.len() {
        (if (pch[k] as int) < par {
            pat_matches_p(s, pat, pch[k] as int, nch[k] as int, sub)
        } else {
            true
        }) && pat_matches_kids(s, pat, pch, nch, k + 1, par, sub)
    } else {
        true
    }
}

/// The total substitution makes the pattern subtree match the class.
pub open spec fn pat_matches(s: Ses, pat: Pattern, pidx: int, class: int, sub: Seq<usize>) -> bool {
    pat_matches_p(s, pat, pidx, class, sub.map_values(|b: usize| Some(b)))
}

/// `s2` keeps every binding of `s1`.
pub open spec fn extends(s1: Seq<Option<usize>>, s2: Seq<Option<usize>>) -> bool {
    s1.len() == s2.len() && forall|v: int|
        0 <= v < s1.len() ==> ((#[trigger] s1[v]) is Some ==> s2[v] == s1[v])
}

/// The substitution extends one of the given seeds.
pub open spec fn from_seeds(seeds: Seq<Vec<Option<usize>>>, e: Seq<Option<usize>>) -> bool {
    exists|q0: int| 0 <= q0 < seeds.len() && extends(seeds[q0]@, e)
}

/// A match established under a partial substitution survives any extension of
/// that substitution.
pub proof fn lemma_matches_extend(
    s: Ses,
    pat: Pattern,
    pidx: int,
    class: int,
    s1: Seq<Option<usize>>,
    s2: Seq<Option<usize>>,
)
    requires
        pat.wf(),
        s1.len() == pat.vars@.len(),
        extends(s1, s2),
        pat_matches_p(s, pat, pidx, class, s1),
    ensures
        pat_matches_p(s, pat, pidx, class, s2),
    decreases pidx, 1int, 0int,
{
    if 0 <= pidx < pat.nodes@.len() {
        assert(pnode_wf(pat.nodes@[pidx], pidx, pat.vars@.len() as int));
        match pat.nodes@[pidx] {
            PNode::Var(v) => {
                assert(s2[v as int] == s1[v as int]);
            },
            PNode::App { op, children } => {
                let j = choose|j: int|
                    0 <= j < s.classes@[class].nodes@.len() && (
                    #[trigger] s.classes@[class].nodes@[j]).op@ == op@ && s.classes@[class]
                        .nodes@[j].children@.len() == children@.len() && pat_matches_kids(
                        s,
                        pat,
                        children@,
                        s.classes@[class].nodes@[j].children@,
                        0,
                        pidx,
                        s1,
                    );
                lemma_matches_kids_extend(
                    s,
                    pat,
                    children@,
                    s.classes@[class].nodes@[j].children@,
                    0,
                    pidx,
                    s1,
                    s2,
                );
                assert(0 <= j < s.classes@[class].nodes@.len() && s.classes@[class].nodes@[j].op@
                    == op@ && s.classes@[class].nodes@[j].children@.len() == children@.len()
                    && pat_matches_kids(
                    s,
                    pat,
                    children@,
                    s.classes@[class].nodes@[j].children@,
                    0,
                    pidx,
                    s2,
                ));
            },
        }
    }
}

pub proof fn lemma_matches_kids_extend(
    s: Ses,
    pat: Pattern,
    pch: Seq<usize>,
    nch: Seq<usize>,
    k: int,
    par: int,
    s1: Seq<Option<usize>>,
    s2: Seq<Option<usize>>,
)
    requires
        pat.wf(),
        s1.len() == pat.vars@.len(),
        extends(s1, s2),
        pat_matches_kids(s, pat, pch, nch, k, par, s1),
    ensures
        pat_matches_kids(s, pat, pch, nch, k, par, s2),
    decreases par, 0int, pch.len() - k,
{
    if 0 <= k < pch.len() {
        if (pch[k] as int) < par {
            lemma_matches_extend(s, pat, pch[k] as int, nch[k] as int, s1, s2);
        }
        lemma_matches_kids_extend(s, pat, pch, nch, k + 1, par, s1, s2);
    }
}

/// A match under a fully-bound partial substitution is a match under its
/// unwrapped total form.
pub proof fn lemma_matches_total(
    s: Ses,
    pat: Pattern,
    pidx: int,
    class: int,
    part: Seq<Option<usize>>,
    total: Seq<usize>,
)
    requires
        pat.wf(),
        part.len() == total.len(),
        forall|v: int| 0 <= v < part.len() ==> (#[trigger] part[v]) == Some(total[v]),
        pat_matches_p(s, pat, pidx, class, part),
    ensures
        pat_matches(s, pat, pidx, class, total),
{
    assert(total.map_values(|b: usize| Some(b)) =~= part);
}

pub proof fn lemma_extends_trans(s1: Seq<Option<usize>>, s2: Seq<Option<usize>>, s3: Seq<Option<usize>>)
    requires
        extends(s1, s2),
        extends(s2, s3),
    ensures
        extends(s1, s3),
{
    assert forall|v: int| 0 <= v < s1.len() implies ((#[trigger] s1[v]) is Some ==> s3[v]
        == s1[v]) by {
        if s1[v] is Some {
            assert(s2[v] == s1[v]);
        }
    }
}

proof fn lemma_kids_fold(
    s: Ses,
    pat: Pattern,
    pch: Seq<usize>,
    nch: Seq<usize>,
    k: int,
    par: int,
    sub: Seq<Option<usize>>,
)
    requires
        forall|k2: int|
            k <= k2 < pch.len() && (#[trigger] pch[k2] as int) < par ==> pat_matches_p(
                s,
                pat,
                pch[k2] as int,
                nch[k2] as int,
                sub,
            ),
    ensures
        pat_matches_kids(s, pat, pch, nch, k, par, sub),
    decreases pch.len() - k,
{
    if 0 <= k < pch.len() {
        lemma_kids_fold(s, pat, pch, nch, k + 1, par, sub);
    }
}

fn copy_partial(s: &Vec<Option<usize>>) -> (r: Vec<Option<usize>>)
    ensures
        r@ == s@,
{
    let mut out: Vec<Option<usize>> = Vec::new();
    let mut i: usize = 0;
    while i < s.len()
        invariant
            i <= s@.len(),
            out@ == s@.take(i as int),
        decreases s@.len() - i,
    {
        out.push(
            match s[i] {
                Some(x) => Some(x),
                None => None,
            },
        );
        proof {
            assert(out@ =~= s@.take(i as int + 1));
        }
        i = i + 1;
    }
    proof {
        assert(s@.take(s@.len() as int) =~= s@);
    }
    out
}

/// Unifies pattern position `pidx` against class `class` under each partial
/// substitution in `substs`, returning every consistent extension. A variable
/// binds to the class; a repeated variable must rebind the same class. The
/// graph must be canonicalized (as it is after every rebuild), so child
/// references compare directly.
pub fn match_pat(
    ses: &Ses,
    pat: &Pattern,
    pidx: usize,
    class: usize,
    substs: &Vec<Vec<Option<usize>>>,
) -> (r: Vec<Vec<Option<usize>>>)
    requires
        ses.wf(),
        all_canonical(*ses),
        pat.wf(),
        pidx < pat.nodes@.len(),
        class < ses.len(),
        root_of(ses.p(), class as int) == class as int,
        partials_wf(substs@, pat.vars@.len() as int, ses.len() as int),
    ensures
        partials_wf(r@, pat.vars@.len() as int, ses.len() as int),
        forall|q: int|
            0 <= q < r@.len() ==> pat_matches_p(
                *ses,
                *pat,
                pidx as int,
                class as int,
                (#[trigger] r@[q])@,
            ) && from_seeds(substs@, r@[q]@),
    decreases pidx,
{
    proof {
        assert(pnode_wf(pat.nodes@[pidx as int], pidx as int, pat.vars@.len() as int));
    }
    let mut out: Vec<Vec<Option<usize>>> = Vec::new();
    match &pat.nodes[pidx] {
        PNode::Var(v) => {
            let v = *v;
            let mut q: usize = 0;
            while q < substs.len()
                invariant
                    ses.wf(),
                    pat.wf(),
                    pidx < pat.nodes@.len(),
                    pat.nodes@[pidx as int] == PNode::Var(v),
                    v < pat.vars@.len(),
                    class < ses.len(),
                    q <= substs@.len(),
                    partials_wf(substs@, pat.vars@.len() as int, ses.len() as int),
                    partials_wf(out@, pat.vars@.len() as int, ses.len() as int),
                    forall|u: int|
                        0 <= u < out@.len() ==> pat_matches_p(
                            *ses,
                            *pat,
                            pidx as int,
                            class as int,
                            (#[trigger] out@[u])@,
                        ) && from_seeds(substs@, out@[u]@),
                decreases substs@.len() - q,
            {
                let s = &substs[q];
                match s[v] {
                    Some(b) => {
                        if b == class {
                            let cp = copy_partial(s);
                            proof {
                                assert(pat_matches_p(
                                    *ses,
                                    *pat,
                                    pidx as int,
                                    class as int,
                                    cp@,
                                ));
                                assert(extends(substs@[q as int]@, cp@));
                                assert(from_seeds(substs@, cp@));
                            }
                            out.push(cp);
                        }
                    },
                    None => {
                        let mut s2 = copy_partial(s);
                        s2[v] = Some(class);
                        proof {
                            assert(partial_wf(s2@, pat.vars@.len() as int, ses.len() as int));
                            assert(pat_matches_p(*ses, *pat, pidx as int, class as int, s2@));
                            assert(extends(substs@[q as int]@, s2@));
                            assert(from_seeds(substs@, s2@));
                        }
                        out.push(s2);
                    },
                }
                q = q + 1;
            }
        },
        PNode::App { op, children } => {
            let nkids = children.len();
            let m = self_nodes_len(ses, class);
            let mut j: usize = 0;
            while j < m
                invariant
                    ses.wf(),
                    all_canonical(*ses),
                    pat.wf(),
                    pidx < pat.nodes@.len(),
                    pat.nodes@[pidx as int] matches PNode::App { .. },
                    op == pat.nodes@[pidx as int]->App_op,
                    children == pat.nodes@[pidx as int]->App_children,
                    nkids == children@.len(),
                    class < ses.len(),
                    root_of(ses.p(), class as int) == class as int,
                    m == ses.classes@[class as int].nodes@.len(),
                    j <= m,
                    partials_wf(substs@, pat.vars@.len() as int, ses.len() as int),
                    partials_wf(out@, pat.vars@.len() as int, ses.len() as int),
                    forall|u: int|
                        0 <= u < out@.len() ==> pat_matches_p(
                            *ses,
                            *pat,
                            pidx as int,
                            class as int,
                            (#[trigger] out@[u])@,
                        ) && from_seeds(substs@, out@[u]@),
                decreases m - j,
            {
                let node_op_matches = str_eq(
                    ses.classes[class].nodes[j].op.as_str(),
                    op.as_str(),
                );
                let node_arity = ses.classes[class].nodes[j].children.len();
                if node_op_matches && node_arity == nkids {
                    let ghost nodej = ses.classes@[class as int].nodes@[j as int];
                    let mut cur = copy_partials(substs);
                    proof {
                        assert forall|u: int|
                            0 <= u < cur@.len() implies from_seeds(
                            substs@,
                            (#[trigger] cur@[u])@,
                        ) by {
                            assert(extends(substs@[u]@, cur@[u]@));
                        }
                    }
                    let mut k: usize = 0;
                    while k < nkids
                        invariant
                            ses.wf(),
                            all_canonical(*ses),
                            pat.wf(),
                            pidx < pat.nodes@.len(),
                            pat.nodes@[pidx as int] matches PNode::App { .. },
                            children == pat.nodes@[pidx as int]->App_children,
                            nkids == children@.len(),
                            class < ses.len(),
                            root_of(ses.p(), class as int) == class as int,
                            j < ses.classes@[class as int].nodes@.len(),
                            nodej == ses.classes@[class as int].nodes@[j as int],
                            nkids == nodej.children@.len(),
                            k <= nkids,
                            partials_wf(substs@, pat.vars@.len() as int, ses.len() as int),
                            partials_wf(cur@, pat.vars@.len() as int, ses.len() as int),
                            forall|u: int|
                                0 <= u < cur@.len() ==> from_seeds(substs@, (#[trigger] cur@[u])@),
                            forall|u: int, k2: int|
                                #![trigger pat_matches_p(*ses, *pat, children@[k2] as int, nodej.children@[k2] as int, cur@[u]@)]
                                0 <= u < cur@.len() && 0 <= k2 < k ==> pat_matches_p(
                                    *ses,
                                    *pat,
                                    children@[k2] as int,
                                    nodej.children@[k2] as int,
                                    cur@[u]@,
                                ),
                        decreases nkids - k,
                    {
                        let kid_pat = children[k];
                        let kid_class = ses.classes[class].nodes[j].children[k];
                        proof {
                            assert(crate::ses::node_valid(
                                ses.classes@[class as int].nodes@[j as int],
                                ses.len() as int,
                            ));
                            assert(crate::rebuild::node_canonical(
                                ses.p(),
                                ses.classes@[class as int].nodes@[j as int],
                            ));
                        }
                        let ghost prev = cur@;
                        cur = match_pat(ses, pat, kid_pat, kid_class, &cur);
                        proof {
                            assert forall|u: int|
                                0 <= u < cur@.len() implies (from_seeds(
                                substs@,
                                (#[trigger] cur@[u])@,
                            ) && (forall|k2: int|
                                0 <= k2 < k + 1 ==> pat_matches_p(
                                    *ses,
                                    *pat,
                                    children@[k2] as int,
                                    nodej.children@[k2] as int,
                                    cur@[u]@,
                                ))) by {
                                assert(from_seeds(prev, cur@[u]@));
                                let e0 = choose|q0: int|
                                    0 <= q0 < prev.len() && extends(prev[q0]@, cur@[u]@);
                                assert(from_seeds(substs@, prev[e0]@));
                                let b0 = choose|q0: int|
                                    0 <= q0 < substs@.len() && extends(substs@[q0]@, prev[e0]@);
                                lemma_extends_trans(substs@[b0]@, prev[e0]@, cur@[u]@);
                                assert(from_seeds(substs@, cur@[u]@));
                                assert forall|k2: int|
                                    0 <= k2 < k + 1 implies pat_matches_p(
                                    *ses,
                                    *pat,
                                    children@[k2] as int,
                                    nodej.children@[k2] as int,
                                    cur@[u]@,
                                ) by {
                                    if k2 < k {
                                        assert(pat_matches_p(
                                            *ses,
                                            *pat,
                                            children@[k2] as int,
                                            nodej.children@[k2] as int,
                                            prev[e0]@,
                                        ));
                                        lemma_matches_extend(
                                            *ses,
                                            *pat,
                                            children@[k2] as int,
                                            nodej.children@[k2] as int,
                                            prev[e0]@,
                                            cur@[u]@,
                                        );
                                    }
                                }
                            }
                        }
                        k = k + 1;
                    }
                    let mut q: usize = 0;
                    while q < cur.len()
                        invariant
                            ses.wf(),
                            pat.wf(),
                            pidx < pat.nodes@.len(),
                            pat.nodes@[pidx as int] matches PNode::App { .. },
                            op == pat.nodes@[pidx as int]->App_op,
                            children == pat.nodes@[pidx as int]->App_children,
                            nkids == children@.len(),
                            class < ses.len(),
                            j < ses.classes@[class as int].nodes@.len(),
                            nodej == ses.classes@[class as int].nodes@[j as int],
                            nodej.op@ == op@,
                            nkids == nodej.children@.len(),
                            q <= cur@.len(),
                            partials_wf(substs@, pat.vars@.len() as int, ses.len() as int),
                            partials_wf(cur@, pat.vars@.len() as int, ses.len() as int),
                            partials_wf(out@, pat.vars@.len() as int, ses.len() as int),
                            forall|u: int|
                                0 <= u < cur@.len() ==> from_seeds(substs@, (#[trigger] cur@[u])@),
                            forall|u: int, k2: int|
                                #![trigger pat_matches_p(*ses, *pat, children@[k2] as int, nodej.children@[k2] as int, cur@[u]@)]
                                0 <= u < cur@.len() && 0 <= k2 < nkids ==> pat_matches_p(
                                    *ses,
                                    *pat,
                                    children@[k2] as int,
                                    nodej.children@[k2] as int,
                                    cur@[u]@,
                                ),
                            forall|u: int|
                                0 <= u < out@.len() ==> pat_matches_p(
                                    *ses,
                                    *pat,
                                    pidx as int,
                                    class as int,
                                    (#[trigger] out@[u])@,
                                ) && from_seeds(substs@, out@[u]@),
                        decreases cur@.len() - q,
                    {
                        let cp = copy_partial(&cur[q]);
                        proof {
                            lemma_kids_fold(
                                *ses,
                                *pat,
                                children@,
                                nodej.children@,
                                0,
                                pidx as int,
                                cp@,
                            );
                            assert(0 <= j < ses.classes@[class as int].nodes@.len()
                                && ses.classes@[class as int].nodes@[j as int].op@ == op@
                                && ses.classes@[class as int].nodes@[j as int].children@.len()
                                == children@.len() && pat_matches_kids(
                                *ses,
                                *pat,
                                children@,
                                ses.classes@[class as int].nodes@[j as int].children@,
                                0,
                                pidx as int,
                                cp@,
                            ));
                            assert(pat_matches_p(*ses, *pat, pidx as int, class as int, cp@));
                            assert(from_seeds(substs@, cur@[q as int]@));
                            assert(extends(cur@[q as int]@, cp@));
                            let b0 = choose|q0: int|
                                0 <= q0 < substs@.len() && extends(substs@[q0]@, cur@[q as int]@);
                            lemma_extends_trans(substs@[b0]@, cur@[q as int]@, cp@);
                            assert(from_seeds(substs@, cp@));
                        }
                        out.push(cp);
                        q = q + 1;
                    }
                }
                j = j + 1;
            }
        },
    }
    out
}

fn copy_partials(ss: &Vec<Vec<Option<usize>>>) -> (r: Vec<Vec<Option<usize>>>)
    ensures
        r@.len() == ss@.len(),
        forall|q: int| 0 <= q < ss@.len() ==> (#[trigger] r@[q])@ == ss@[q]@,
{
    let mut out: Vec<Vec<Option<usize>>> = Vec::new();
    let mut i: usize = 0;
    while i < ss.len()
        invariant
            i <= ss@.len(),
            out@.len() == i,
            forall|q: int| 0 <= q < i ==> (#[trigger] out@[q])@ == ss@[q]@,
        decreases ss@.len() - i,
    {
        out.push(copy_partial(&ss[i]));
        i = i + 1;
    }
    out
}

fn self_nodes_len(ses: &Ses, class: usize) -> (r: usize)
    requires
        ses.wf(),
        class < ses.len(),
    ensures
        r == ses.classes@[class as int].nodes@.len(),
{
    ses.classes[class].nodes.len()
}

/// Searches one rule's left pattern over every canonical class, returning one
/// match per (class, consistent substitution) pair found, with every variable
/// bound. Every returned match is sound: its substitution makes the whole
/// left pattern match its class.
pub fn search(ses: &Ses, rule: &Rule) -> (r: Vec<Match>)
    requires
        ses.wf(),
        all_canonical(*ses),
        rule.wf(),
    ensures
        forall|q: int|
            0 <= q < r@.len() ==> match_wf(
                #[trigger] r@[q],
                rule.lhs.vars@.len() as int,
                ses.len() as int,
            ),
        forall|q: int|
            0 <= q < r@.len() ==> pat_matches(
                *ses,
                rule.lhs,
                rule.lhs.nodes@.len() - 1,
                (#[trigger] r@[q]).eclass as int,
                r@[q].subst@,
            ),
{
    let mut out: Vec<Match> = Vec::new();
    let n = ses.classes.len();
    let root_pidx = rule.lhs.nodes.len() - 1;
    let mut c: usize = 0;
    while c < n
        invariant
            ses.wf(),
            all_canonical(*ses),
            rule.wf(),
            n == ses.len(),
            root_pidx == rule.lhs.nodes@.len() - 1,
            c <= n,
            forall|q: int|
                0 <= q < out@.len() ==> match_wf(
                    #[trigger] out@[q],
                    rule.lhs.vars@.len() as int,
                    ses.len() as int,
                ),
            forall|q: int|
                0 <= q < out@.len() ==> pat_matches(
                    *ses,
                    rule.lhs,
                    rule.lhs.nodes@.len() - 1,
                    (#[trigger] out@[q]).eclass as int,
                    out@[q].subst@,
                ),
        decreases n - c,
    {
        if ses.uf.parents[c] == c {
            proof {
                assert(root_of(ses.p(), c as int) == c as int);
            }
            let mut empty: Vec<Option<usize>> = Vec::new();
            let nv = rule.lhs.vars.len();
            let mut v: usize = 0;
            while v < nv
                invariant
                    v <= nv,
                    empty@.len() == v,
                    forall|u: int| 0 <= u < v ==> (#[trigger] empty@[u]) is None,
                decreases nv - v,
            {
                empty.push(None);
                v = v + 1;
            }
            let mut seed: Vec<Vec<Option<usize>>> = Vec::new();
            seed.push(empty);
            proof {
                assert(partials_wf(seed@, rule.lhs.vars@.len() as int, ses.len() as int));
            }
            let found = match_pat(ses, &rule.lhs, root_pidx, c, &seed);
            let mut q: usize = 0;
            while q < found.len()
                invariant
                    ses.wf(),
                    rule.wf(),
                    c < ses.len(),
                    root_pidx == rule.lhs.nodes@.len() - 1,
                    q <= found@.len(),
                    partials_wf(found@, rule.lhs.vars@.len() as int, ses.len() as int),
                    forall|u: int|
                        0 <= u < found@.len() ==> pat_matches_p(
                            *ses,
                            rule.lhs,
                            root_pidx as int,
                            c as int,
                            (#[trigger] found@[u])@,
                        ),
                    forall|qq: int|
                        0 <= qq < out@.len() ==> match_wf(
                            #[trigger] out@[qq],
                            rule.lhs.vars@.len() as int,
                            ses.len() as int,
                        ),
                    forall|qq: int|
                        0 <= qq < out@.len() ==> pat_matches(
                            *ses,
                            rule.lhs,
                            rule.lhs.nodes@.len() - 1,
                            (#[trigger] out@[qq]).eclass as int,
                            out@[qq].subst@,
                        ),
                decreases found@.len() - q,
            {
                let s = &found[q];
                let mut full: Vec<usize> = Vec::new();
                let mut ok = true;
                let mut v2: usize = 0;
                while v2 < s.len()
                    invariant
                        v2 <= s@.len(),
                        partial_wf(s@, rule.lhs.vars@.len() as int, ses.len() as int),
                        ok ==> full@.len() == v2,
                        ok ==> forall|u: int|
                            0 <= u < v2 ==> (#[trigger] s@[u]) == Some(full@[u]),
                        forall|u: int| 0 <= u < full@.len() ==> (#[trigger] full@[u]) < ses.len(),
                    decreases s@.len() - v2,
                {
                    match s[v2] {
                        Some(b) => {
                            full.push(b);
                        },
                        None => {
                            ok = false;
                        },
                    }
                    v2 = v2 + 1;
                }
                if ok {
                    proof {
                        lemma_matches_total(
                            *ses,
                            rule.lhs,
                            root_pidx as int,
                            c as int,
                            s@,
                            full@,
                        );
                    }
                    out.push(Match { eclass: c, subst: full });
                }
                q = q + 1;
            }
        }
        c = c + 1;
    }
    out
}

/// Instantiates a rule's right pattern under a match's bindings, inserts the
/// resulting nodes, and unions the result with the matched class; repeats for
/// every match. Returns how many matches produced an actual merge.
pub fn apply(ses: &mut Ses, rule: &Rule, matches: &Vec<Match>) -> (count: u64)
    requires
        old(ses).wf(),
        rule.wf(),
        forall|q: int|
            0 <= q < matches@.len() ==> match_wf(
                #[trigger] matches@[q],
                rule.lhs.vars@.len() as int,
                old(ses).len() as int,
            ),
    ensures
        final(ses).wf(),
        old(ses).len() <= final(ses).len(),
        count <= matches@.len(),
        coarsens(*old(ses), *final(ses)),
        preserves_keys(*old(ses), *final(ses)),
        ache_monotone(*old(ses), *final(ses)),
{
    proof {
        lemma_preserves_same(*old(ses), *old(ses));
        lemma_ache_monotone_same(*old(ses), *old(ses));
    }
    let mut count: u64 = 0;
    let mut q: usize = 0;
    while q < matches.len()
        invariant
            old(ses).wf(),
            ses.wf(),
            rule.wf(),
            old(ses).len() <= ses.len(),
            coarsens(*old(ses), *ses),
            preserves_keys(*old(ses), *ses),
            ache_monotone(*old(ses), *ses),
            q <= matches@.len(),
            count <= q,
            forall|qq: int|
                0 <= qq < matches@.len() ==> match_wf(
                    #[trigger] matches@[qq],
                    rule.lhs.vars@.len() as int,
                    old(ses).len() as int,
                ),
        decreases matches@.len() - q,
    {
        let m = &matches[q];
        let mut ids: Vec<usize> = Vec::new();
        let np = rule.rhs.nodes.len();
        let mut i: usize = 0;
        while i < np
            invariant
                old(ses).wf(),
                ses.wf(),
                rule.wf(),
                old(ses).len() <= ses.len(),
                coarsens(*old(ses), *ses),
                preserves_keys(*old(ses), *ses),
                ache_monotone(*old(ses), *ses),
                q < matches@.len(),
                match_wf(matches@[q as int], rule.lhs.vars@.len() as int, old(ses).len() as int),
                m == &matches@[q as int],
                np == rule.rhs.nodes@.len(),
                i <= np,
                ids@.len() == i,
                forall|u: int| 0 <= u < ids@.len() ==> (#[trigger] ids@[u]) < ses.len(),
            decreases np - i,
        {
            let nid: usize = match &rule.rhs.nodes[i] {
                PNode::Var(v) => m.subst[*v],
                PNode::App { op, children } => {
                    let mut ch: Vec<usize> = Vec::new();
                    let mut k: usize = 0;
                    while k < children.len()
                        invariant
                            i < rule.rhs.nodes@.len(),
                            rule.rhs.wf(),
                            rule.rhs.nodes@[i as int] matches PNode::App { .. },
                            children == rule.rhs.nodes@[i as int]->App_children,
                            ids@.len() == i,
                            forall|u: int|
                                0 <= u < ids@.len() ==> (#[trigger] ids@[u]) < ses.len(),
                            k <= children@.len(),
                            ch@.len() == k,
                            forall|u: int| 0 <= u < ch@.len() ==> (#[trigger] ch@[u]) < ses.len(),
                        decreases children@.len() - k,
                    {
                        ch.push(ids[children[k]]);
                        k = k + 1;
                    }
                    let ghost pre = *ses;
                    let rid = ses.insert_node(op.clone(), ch);
                    proof {
                        assert forall|u: int| 0 <= u < ids@.len() implies (#[trigger] ids@[u])
                            < ses.len() by {}
                        lemma_preserves_trans(*old(ses), pre, *ses);
                        lemma_ache_monotone_same(pre, *ses);
                        lemma_ache_monotone_trans(*old(ses), pre, *ses);
                    }
                    rid
                },
            };
            ids.push(nid);
            i = i + 1;
        }
        if np > 0 {
            let newid = ids[np - 1];
            let ghost pre2 = *ses;
            let merged = ses.union(m.eclass, newid);
            proof {
                lemma_preserves_trans(*old(ses), pre2, *ses);
                lemma_ache_monotone_trans(*old(ses), pre2, *ses);
            }
            if merged {
                count = count + 1;
            }
        }
        q = q + 1;
    }
    count
}

} // verus!
