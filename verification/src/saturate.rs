//! The saturation controller: repeated search-apply-rebuild rounds to a
//! fixpoint or an iteration cap, with an append-only trace of rule
//! applications.

use vstd::prelude::*;
use vstd::string::*;

use crate::expr::render;
use crate::extract::extract;
use crate::pattern::{apply, match_wf, search, PNode, Pattern, Rule};
use crate::rebuild::all_canonical;
use crate::ses::Ses;
use crate::uf::root_of;

verus! {

/// One recorded rule application: the round, the rule, the class it hit, a
/// size-minimal rendering of the class before and after the round's
/// application (or a merged marker), and the concretely-instantiated pattern
/// texts.
pub struct TraceEvent {
    pub iter: usize,
    pub rewrite: String,
    pub eclass: usize,
    pub before_expr: String,
    pub after_expr: String,
    pub lhs_inst: Vec<String>,
    pub rhs_inst: Vec<String>,
}

/// The trace event names one of the given rules.
pub open spec fn rewrite_named(rules: Seq<Rule>, t: TraceEvent) -> bool {
    exists|ri: int| 0 <= ri < rules.len() && t.rewrite@ == rules[ri].name@
}

/// The controller's states; the loop always ends in one of the two terminal
/// ones.
pub enum SatState {
    Running,
    Converged,
    IterationCapReached,
}

/// Renders the size-minimal member of every canonical class.
fn snapshot_strings(ses: &Ses) -> (r: Vec<Option<String>>)
    requires
        ses.wf(),
        all_canonical(*ses),
    ensures
        r@.len() == ses.len(),
{
    let n = ses.classes.len();
    let mut out: Vec<Option<String>> = Vec::new();
    let mut c: usize = 0;
    while c < n
        invariant
            ses.wf(),
            all_canonical(*ses),
            n == ses.len(),
            c <= n,
            out@.len() == c,
        decreases n - c,
    {
        let entry: Option<String> = match extract(ses, c, 0) {
            Some(pair) => {
                let e = pair.1;
                let idx = e.node_count() - 1;
                Some(render(&e, idx))
            },
            None => None,
        };
        out.push(entry);
        c = c + 1;
    }
    out
}

/// The rendered text of the pattern node at `pidx`: a bound variable prints
/// as the snapshot text of its class (`?name` when no substitution is given
/// or the class has no rendered form), an application as the parenthesized
/// operator followed by its children.
pub open spec fn render_pat(
    pat: Pattern,
    pidx: int,
    subst: Option<Seq<usize>>,
    snap: Seq<Option<String>>,
) -> Seq<char>
    decreases pidx, 1int, 0int,
{
    if 0 <= pidx < pat.nodes@.len() {
        match pat.nodes@[pidx] {
            PNode::Var(v) => {
                if subst is Some && (subst->Some_0[v as int] as int) < snap.len() && snap[subst
                    ->Some_0[v as int] as int] is Some {
                    snap[subst->Some_0[v as int] as int]->Some_0@
                } else {
                    seq!['?'] + pat.vars@[v as int]@
                }
            },
            PNode::App { op, children } => seq!['('] + op@ + render_pat_kids(
                pat,
                children@,
                0,
                pidx,
                subst,
                snap,
            ) + seq![')'],
        }
    } else {
        Seq::<char>::empty()
    }
}

/// The rendered texts of pattern children `k ..`, each preceded by one space;
/// the parent position bounds the recursion as in `render_kids`.
pub open spec fn render_pat_kids(
    pat: Pattern,
    ch: Seq<usize>,
    k: int,
    par: int,
    subst: Option<Seq<usize>>,
    snap: Seq<Option<String>>,
) -> Seq<char>
    decreases par, 0int, ch.len() - k,
{
    if 0 <= k < ch.len() {
        if (ch[k] as int) < par {
            seq![' '] + render_pat(pat, ch[k] as int, subst, snap) + render_pat_kids(
                pat,
                ch,
                k + 1,
                par,
                subst,
                snap,
            )
        } else {
            render_pat_kids(pat, ch, k + 1, par, subst, snap)
        }
    } else {
        Seq::<char>::empty()
    }
}

/// The substitution as the rendering spec sees it.
pub open spec fn subst_view(subst: Option<&Vec<usize>>) -> Option<Seq<usize>> {
    match subst {
        Option::Some(s) => Some(s@),
        Option::None => None,
    }
}

/// Renders a pattern: exactly `render_pat` over the given substitution and
/// snapshot.
fn render_pattern(
    pat: &Pattern,
    pidx: usize,
    subst: Option<&Vec<usize>>,
    snapshot: &Vec<Option<String>>,
) -> (r: String)
    requires
        pat.wf(),
        pidx < pat.nodes@.len(),
        subst matches Some(s) ==> s@.len() == pat.vars@.len(),
    ensures
        r@ == render_pat(*pat, pidx as int, subst_view(subst), snapshot@),
    decreases pidx,
{
    match &pat.nodes[pidx] {
        PNode::Var(v) => {
            let v = *v;
            if let Some(s) = subst {
                let b = s[v];
                if b < snapshot.len() {
                    if let Some(txt) = &snapshot[b] {
                        return txt.clone();
                    }
                }
            }
            let mut out = String::from_str("?");
            proof {
                reveal_strlit("?");
                assert(out@ =~= seq!['?']);
            }
            out.append(pat.vars[v].as_str());
            proof {
                assert(out@ =~= render_pat(*pat, pidx as int, subst_view(subst), snapshot@));
            }
            out
        },
        PNode::App { op, children } => {
            let mut out = String::from_str("(");
            proof {
                reveal_strlit("(");
                assert(out@ =~= seq!['(']);
            }
            out.append(op.as_str());
            let ghost chv = pat.nodes@[pidx as int]->App_children@;
            let mut k: usize = 0;
            while k < children.len()
                invariant
                    pat.wf(),
                    pidx < pat.nodes@.len(),
                    pat.nodes@[pidx as int] matches PNode::App { .. },
                    children == pat.nodes@[pidx as int]->App_children,
                    chv == children@,
                    subst matches Some(s) ==> s@.len() == pat.vars@.len(),
                    k <= children@.len(),
                    forall|u: int| 0 <= u < chv.len() ==> #[trigger] chv[u] < pidx,
                    out@ + render_pat_kids(
                        *pat,
                        chv,
                        k as int,
                        pidx as int,
                        subst_view(subst),
                        snapshot@,
                    ) =~= seq!['('] + pat.nodes@[pidx as int]->App_op@ + render_pat_kids(
                        *pat,
                        chv,
                        0,
                        pidx as int,
                        subst_view(subst),
                        snapshot@,
                    ),
                decreases children@.len() - k,
            {
                let sub = render_pattern(pat, children[k], subst, snapshot);
                out.append(" ");
                proof {
                    reveal_strlit(" ");
                }
                out.append(sub.as_str());
                k = k + 1;
            }
            out.append(")");
            proof {
                reveal_strlit(")");
                assert(render_pat_kids(
                    *pat,
                    chv,
                    chv.len() as int,
                    pidx as int,
                    subst_view(subst),
                    snapshot@,
                ) =~= Seq::<char>::empty());
                assert(out@ =~= render_pat(*pat, pidx as int, subst_view(subst), snapshot@));
            }
            out
        },
    }
}

fn is_canon(ses: &Ses, c: usize) -> (r: bool)
    requires
        ses.wf(),
        c < ses.len(),
    ensures
        r == (root_of(ses.p(), c as int) == c as int),
{
    let r = ses.uf.parents[c] == c;
    proof {
        if ses.uf.parents@[c as int] != c {
            crate::uf::lemma_root_bounds(ses.p(), ses.uf.parents@[c as int] as int);
        }
    }
    r
}

/// Drives search-apply-rebuild rounds over the rule list, in order, until a
/// round applies no mutation (Converged) or the iteration cap is reached
/// without convergence (IterationCapReached). Returns the terminal state, the
/// trace, and the per-round mutation counts: the loop runs at most
/// `max_iters` rounds, every round before the last applies at least one
/// mutation, and it stops before the cap exactly when the last round applied
/// none.
pub fn run_saturation(ses: &mut Ses, rules: &Vec<Rule>, max_iters: usize) -> (r: (
    SatState,
    Vec<TraceEvent>,
    Vec<u64>,
))
    requires
        old(ses).wf(),
        max_iters >= 1,
        forall|i: int| 0 <= i < rules@.len() ==> (#[trigger] rules@[i]).wf(),
    ensures
        final(ses).wf(),
        all_canonical(*final(ses)),
        old(ses).len() <= final(ses).len(),
        r.0 is Converged || r.0 is IterationCapReached,
        1 <= r.2@.len() <= max_iters,
        (r.0 is Converged) <==> r.2@[r.2@.len() - 1] == 0,
        (r.0 is IterationCapReached) ==> r.2@.len() == max_iters,
        forall|i: int| 0 <= i < r.2@.len() - 1 ==> #[trigger] r.2@[i] > 0,
        r.2@.len() < max_iters ==> r.2@[r.2@.len() - 1] == 0,
        forall|t: int|
            0 <= t < r.1@.len() ==> 1 <= (#[trigger] r.1@[t]).iter <= r.2@.len(),
        forall|t: int| 0 <= t < r.1@.len() ==> rewrite_named(rules@, #[trigger] r.1@[t]),
{
    ses.rebuild();
    let mut trace: Vec<TraceEvent> = Vec::new();
    let mut rounds: Vec<u64> = Vec::new();
    let mut converged = false;
    let mut it: usize = 0;
    while it < max_iters && !converged
        invariant
            ses.wf(),
            all_canonical(*ses),
            old(ses).len() <= ses.len(),
            forall|i: int| 0 <= i < rules@.len() ==> (#[trigger] rules@[i]).wf(),
            it <= max_iters,
            rounds@.len() == it,
            converged <==> (rounds@.len() > 0 && rounds@[rounds@.len() - 1] == 0),
            forall|i: int| 0 <= i < rounds@.len() - 1 ==> #[trigger] rounds@[i] > 0,
            !converged ==> forall|i: int| 0 <= i < rounds@.len() ==> #[trigger] rounds@[i] > 0,
            forall|t: int|
                0 <= t < trace@.len() ==> 1 <= (#[trigger] trace@[t]).iter <= it,
            forall|t: int|
                0 <= t < trace@.len() ==> rewrite_named(rules@, #[trigger] trace@[t]),
        decreases max_iters - it,
    {
        let iter = it + 1;
        let mut total: u64 = 0;
        let snapshot = snapshot_strings(ses);
        let nr = rules.len();
        let mut ri: usize = 0;
        while ri < nr
            invariant
                ses.wf(),
                all_canonical(*ses),
                old(ses).len() <= ses.len(),
                forall|i: int| 0 <= i < rules@.len() ==> (#[trigger] rules@[i]).wf(),
                nr == rules@.len(),
                ri <= nr,
                it < max_iters,
                iter == it + 1,
                forall|t: int|
                    0 <= t < trace@.len() ==> 1 <= (#[trigger] trace@[t]).iter <= it + 1,
                forall|t: int|
                    0 <= t < trace@.len() ==> rewrite_named(rules@, #[trigger] trace@[t]),
            decreases nr - ri,
        {
            let rule = &rules[ri];
            let matches = search(ses, rule);
            if matches.len() > 0 {
                let mut lhs_inst: Vec<String> = Vec::new();
                let mut rhs_inst: Vec<String> = Vec::new();
                let mut touched: Vec<usize> = Vec::new();
                let mut befores: Vec<String> = Vec::new();
                let root_pidx = rule.lhs.nodes.len() - 1;
                let rhs_root = rule.rhs.nodes.len() - 1;
                let mut q: usize = 0;
                while q < matches.len()
                    invariant
                        ses.wf(),
                        rule.wf(),
                        root_pidx == rule.lhs.nodes@.len() - 1,
                        rhs_root == rule.rhs.nodes@.len() - 1,
                        q <= matches@.len(),
                        touched@.len() == befores@.len(),
                        forall|u: int|
                            0 <= u < matches@.len() ==> match_wf(
                                #[trigger] matches@[u],
                                rule.lhs.vars@.len() as int,
                                ses.len() as int,
                            ),
                    decreases matches@.len() - q,
                {
                    let m = &matches[q];
                    lhs_inst.push(
                        render_pattern(&rule.lhs, root_pidx, Some(&m.subst), &snapshot),
                    );
                    rhs_inst.push(render_pattern(&rule.rhs, rhs_root, None, &snapshot));
                    let mut seen = false;
                    let mut t: usize = 0;
                    while t < touched.len()
                        invariant
                            t <= touched@.len(),
                        decreases touched@.len() - t,
                    {
                        if touched[t] == m.eclass {
                            seen = true;
                        }
                        t = t + 1;
                    }
                    if !seen {
                        touched.push(m.eclass);
                        let b: String = if m.eclass < snapshot.len() {
                            match &snapshot[m.eclass] {
                                Some(txt) => txt.clone(),
                                None => String::new(),
                            }
                        } else {
                            String::new()
                        };
                        befores.push(b);
                    }
                    q = q + 1;
                }
                let applied = apply(ses, rule, &matches);
                total = match total.checked_add(applied) {
                    Some(v) => v,
                    None => u64::MAX,
                };
                ses.rebuild();
                let ghost rulename = rule.name@;
                let mut t2: usize = 0;
                while t2 < touched.len()
                    invariant
                        ses.wf(),
                        all_canonical(*ses),
                        rule.wf(),
                        t2 <= touched@.len(),
                        touched@.len() == befores@.len(),
                        iter == it + 1,
                        ri < rules@.len(),
                        rulename == rules@[ri as int].name@,
                        rulename == rule.name@,
                        forall|t: int|
                            0 <= t < trace@.len() ==> 1 <= (#[trigger] trace@[t]).iter <= it + 1,
                        forall|t: int|
                            0 <= t < trace@.len() ==> rewrite_named(rules@, #[trigger] trace@[t]),
                    decreases touched@.len() - t2,
                {
                    let eid = touched[t2];
                    let after: String = if eid < ses.classes.len() {
                        if is_canon(ses, eid) {
                            match extract(ses, eid, 0) {
                                Some(pair) => {
                                    let e = pair.1;
                                    let idx = e.node_count() - 1;
                                    render(&e, idx)
                                },
                                None => String::from_str("<merged>"),
                            }
                        } else {
                            String::from_str("<merged>")
                        }
                    } else {
                        String::from_str("<merged>")
                    };
                    trace.push(
                        TraceEvent {
                            iter,
                            rewrite: rule.name.clone(),
                            eclass: eid,
                            before_expr: befores[t2].clone(),
                            after_expr: after,
                            lhs_inst: copy_strings(&lhs_inst),
                            rhs_inst: copy_strings(&rhs_inst),
                        },
                    );
                    proof {
                        assert(trace@[trace@.len() - 1].rewrite@ == rules@[ri as int].name@);
                        assert(rewrite_named(rules@, trace@[trace@.len() - 1]));
                    }
                    t2 = t2 + 1;
                }
            }
            ri = ri + 1;
        }
        rounds.push(total);
        if total == 0 {
            converged = true;
        }
        it = it + 1;
    }
    let state = if converged {
        SatState::Converged
    } else {
        SatState::IterationCapReached
    };
    (state, trace, rounds)
}

fn copy_strings(v: &Vec<String>) -> (r: Vec<String>)
    ensures
        r@.len() == v@.len(),
{
    let mut out: Vec<String> = Vec::new();
    let mut i: usize = 0;
    while i < v.len()
        invariant
            i <= v@.len(),
            out@.len() == i,
        decreases v@.len() - i,
    {
        out.push(v[i].clone());
        i = i + 1;
    }
    out
}

} // verus!
