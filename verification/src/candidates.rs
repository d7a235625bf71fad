//! Candidate generation: up to N alternative extractions, the first under the
//! pure structural-size metric and the rest under the ache-biased metric with
//! a fixed weight progression, deduplicated by their rendered text and bounded
//! by a fixed attempt cap so exhaustion of distinct outputs cannot loop
//! forever. Each candidate carries a coverage map replaying the original
//! input tree through the hashcons table.

use vstd::prelude::*;
use vstd::string::*;

use crate::expr::{render, ENode, Expr};
use crate::extract::{extract, valid_class_cost};
use crate::rebuild::all_canonical;
use crate::ses::{spec_lookup, Ses};

verus! {

/// How many weight samples are tried beyond the structural-size candidate,
/// independent of how many candidates were requested.
pub const CANDIDATE_ATTEMPT_CAP: u64 = 64;

/// One original-tree position and the class it canonicalized into.
pub struct Coverage {
    pub ast: usize,
    pub eclass: usize,
}

/// One alternative output: the metric name, the weight used (in thousandths),
/// the total scaled cost, the rendered expression, and the coverage map.
pub struct Candidate {
    pub name: String,
    pub lambda: u64,
    pub cost: i64,
    pub expr: String,
    pub coverage: Vec<Coverage>,
}

/// The class ids the first `n` positions of the tree resolve to when its
/// structure is replayed through the hashcons table: each position's node,
/// with children already resolved, is looked up; a missing shape resolves to
/// the sentinel `usize::MAX`.
pub open spec fn replay_ids(s: Ses, expr: Expr, n: int) -> Seq<usize>
    decreases n,
{
    if n <= 0 {
        Seq::<usize>::empty()
    } else {
        let prev = replay_ids(s, expr, n - 1);
        let node = expr.nodes@[n - 1];
        let ch = Seq::new(node.children@.len(), |k: int| prev[node.children@[k] as int]);
        prev.push(
            match spec_lookup(s.table@, node.op@, ch) {
                Option::Some(d) => d,
                Option::None => usize::MAX,
            },
        )
    }
}

/// Replays the original tree's structure through the hashcons table: entry
/// `i` carries position `i` and the class id that position's subtree resolves
/// to (`replay_ids`); the sentinel `usize::MAX` appears exactly when the
/// replayed shape is absent from the table.
pub fn coverage_for(ses: &Ses, expr: &Expr) -> (r: Vec<Coverage>)
    requires
        ses.wf(),
        expr.wf(),
    ensures
        r@.len() == expr.len(),
        forall|i: int| 0 <= i < r@.len() ==> (#[trigger] r@[i]).ast == i,
        forall|i: int|
            0 <= i < r@.len() ==> (#[trigger] r@[i]).eclass == replay_ids(
                *ses,
                *expr,
                expr.len() as int,
            )[i],
{
    let n = expr.node_count();
    let mut class_of: Vec<usize> = Vec::new();
    let mut i: usize = 0;
    while i < n
        invariant
            ses.wf(),
            expr.wf(),
            n == expr.len(),
            i <= n,
            class_of@ == replay_ids(*ses, *expr, i as int),
            class_of@.len() == i,
        decreases n - i,
    {
        let nk = expr.nodes[i].children.len();
        let mut ch: Vec<usize> = Vec::new();
        let mut k: usize = 0;
        while k < nk
            invariant
                expr.wf(),
                i < expr.len(),
                nk == expr.nodes@[i as int].children@.len(),
                class_of@.len() == i,
                k <= nk,
                ch@.len() == k,
                forall|k2: int|
                    0 <= k2 < k ==> #[trigger] ch@[k2] == class_of@[expr.nodes@[i as int]
                        .children@[k2] as int],
            decreases nk - k,
        {
            ch.push(class_of[expr.nodes[i].children[k]]);
            k = k + 1;
        }
        let probe = ENode { op: expr.nodes[i].op.clone(), children: ch };
        let id = match ses.lookup_raw(&probe) {
            Some(d) => d,
            None => usize::MAX,
        };
        proof {
            let node = expr.nodes@[i as int];
            assert(probe.children@ =~= Seq::new(
                node.children@.len(),
                |k: int| class_of@[node.children@[k] as int],
            ));
            assert(replay_ids(*ses, *expr, i as int + 1) =~= class_of@.push(id));
        }
        class_of.push(id);
        i = i + 1;
    }
    let mut out: Vec<Coverage> = Vec::new();
    let mut i2: usize = 0;
    while i2 < n
        invariant
            n == expr.len(),
            class_of@ == replay_ids(*ses, *expr, n as int),
            class_of@.len() == n,
            i2 <= n,
            out@.len() == i2,
            forall|u: int| 0 <= u < out@.len() ==> (#[trigger] out@[u]).ast == u,
            forall|u: int|
                0 <= u < out@.len() ==> (#[trigger] out@[u]).eclass == replay_ids(
                    *ses,
                    *expr,
                    n as int,
                )[u],
        decreases n - i2,
    {
        out.push(Coverage { ast: i2, eclass: class_of[i2] });
        i2 = i2 + 1;
    }
    out
}

fn contains_expr(cands: &Vec<Candidate>, s: &String) -> (r: bool)
    ensures
        r == exists|q: int| 0 <= q < cands@.len() && (#[trigger] cands@[q].expr)@ == s@,
{
    let mut q: usize = 0;
    while q < cands.len()
        invariant
            q <= cands@.len(),
            forall|u: int| 0 <= u < q ==> (#[trigger] cands@[u].expr)@ != s@,
        decreases cands@.len() - q,
    {
        if cands[q].expr == *s {
            return true;
        }
        q = q + 1;
    }
    false
}

fn u64_digits(x: u64) -> (r: String)
    decreases x,
{
    let d: u64 = x % 10;
    let c: &str = if d == 0 {
        "0"
    } else if d == 1 {
        "1"
    } else if d == 2 {
        "2"
    } else if d == 3 {
        "3"
    } else if d == 4 {
        "4"
    } else if d == 5 {
        "5"
    } else if d == 6 {
        "6"
    } else if d == 7 {
        "7"
    } else if d == 8 {
        "8"
    } else {
        "9"
    };
    if x < 10 {
        String::from_str(c)
    } else {
        let mut head = u64_digits(x / 10);
        head.append(c);
        head
    }
}

/// Produces up to `nbest` candidates, deduplicated by rendered expression
/// text: no two returned candidates render the same text. The first uses the
/// structural-size metric (weight zero); later ones sample the ache-biased
/// metric at `lambda * (5 + 2 * i) / 5` thousandths for attempt `i`, stopping
/// at `nbest` distinct outputs or after `CANDIDATE_ATTEMPT_CAP` attempts,
/// whichever is first.
pub fn generate_candidates(
    ses: &Ses,
    root: usize,
    lambda: u64,
    nbest: usize,
    orig: &Expr,
) -> (r: Vec<Candidate>)
    requires
        ses.wf(),
        all_canonical(*ses),
        root < ses.len(),
        lambda <= 0x1_0000_0000,
        orig.wf(),
    ensures
        r@.len() <= nbest,
        forall|i: int, j: int|
            0 <= i < j < r@.len() ==> (#[trigger] r@[i].expr)@ != (#[trigger] r@[j].expr)@,
        r@.len() >= 1 ==> r@[0].name@ == "size"@ && r@[0].lambda == 0 && valid_class_cost(
            *ses,
            0,
            root as int,
            r@[0].cost,
        ),
        forall|q: int|
            0 <= q < r@.len() ==> (#[trigger] r@[q]).coverage@.len() == orig.len() && (forall|
                i: int,
            |
                0 <= i < orig.len() ==> (#[trigger] r@[q].coverage@[i]).ast == i
                    && r@[q].coverage@[i].eclass == replay_ids(*ses, *orig, orig.len() as int)[i]),
{
    let mut out: Vec<Candidate> = Vec::new();
    if nbest == 0 {
        return out;
    }
    // the first candidate is always the structural-size one; without it no
    // candidate list is produced at all
    match extract(ses, root, 0) {
        Some(pair) => {
            let cost = pair.0;
            let e = pair.1;
            let idx = e.node_count() - 1;
            let s = render(&e, idx);
            out.push(
                Candidate {
                    name: String::from_str("size"),
                    lambda: 0,
                    cost,
                    expr: s,
                    coverage: coverage_for(ses, orig),
                },
            );
        },
        None => {
            return out;
        },
    }
    let mut i: u64 = 0;
    while out.len() < nbest && i < CANDIDATE_ATTEMPT_CAP
        invariant
            ses.wf(),
            all_canonical(*ses),
            root < ses.len(),
            lambda <= 0x1_0000_0000,
            orig.wf(),
            i <= CANDIDATE_ATTEMPT_CAP,
            1 <= out@.len() <= nbest,
            forall|u: int, v: int|
                0 <= u < v < out@.len() ==> (#[trigger] out@[u].expr)@ != (
                #[trigger] out@[v].expr)@,
            out@[0].name@ == "size"@ && out@[0].lambda == 0 && valid_class_cost(
                *ses,
                0,
                root as int,
                out@[0].cost,
            ),
            forall|q: int|
                0 <= q < out@.len() ==> (#[trigger] out@[q]).coverage@.len() == orig.len() && (
                forall|i2: int|
                    0 <= i2 < orig.len() ==> (#[trigger] out@[q].coverage@[i2]).ast == i2
                        && out@[q].coverage@[i2].eclass == replay_ids(
                        *ses,
                        *orig,
                        orig.len() as int,
                    )[i2]),
        decreases CANDIDATE_ATTEMPT_CAP - i,
    {
        proof {
            assert(lambda * (5 + 2 * i) <= 0x1_0000_0000 * 133) by (nonlinear_arith)
                requires
                    lambda <= 0x1_0000_0000,
                    i < 64,
            ;
        }
        let lam: u64 = lambda * (5 + 2 * i) / 5;
        match extract(ses, root, lam) {
            Some(pair) => {
                let cost = pair.0;
                let e = pair.1;
                let idx = e.node_count() - 1;
                let s = render(&e, idx);
                if !contains_expr(&out, &s) {
                    let mut name = String::from_str("lambda_");
                    let digits = u64_digits(i);
                    name.append(digits.as_str());
                    let ghost pre = out@;
                    out.push(
                        Candidate {
                            name,
                            lambda: lam,
                            cost,
                            expr: s,
                            coverage: coverage_for(ses, orig),
                        },
                    );
                    proof {
                        assert(out@[0] == pre[0]);
                        assert forall|q: int| 0 <= q < pre.len() implies #[trigger] out@[q]
                            == pre[q] by {}
                    }
                }
            },
            None => {},
        }
        i = i + 1;
    }
    out
}

} // verus!
