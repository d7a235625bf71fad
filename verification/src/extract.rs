//! Cost-based extraction: a dynamic-programming minimal-cost representative
//! per class, computed by repeated relaxation (classes may sit in cycles), and
//! reconstruction of the chosen expression with an explicit recursion guard.
//!
//! Costs are fixed-point integers: one structural node costs `COST_SCALE`;
//! the ache-biased metric subtracts `lambda` (in thousandths) times the
//! class's ache aggregate (in hundredths). The structural-size metric is the
//! same metric with `lambda == 0`.

use vstd::prelude::*;

use crate::ache::ache_sum;
use crate::expr::Expr;
use crate::rebuild::all_canonical;
use crate::ses::Ses;
use crate::uf::root_of;

verus! {

pub const COST_SCALE: i64 = 100000;

pub open spec fn sum_of(cc: Seq<i64>) -> int
    decreases cc.len(),
{
    if cc.len() == 0 {
        0
    } else {
        sum_of(cc.drop_last()) + cc.last()
    }
}

pub open spec fn in_i64(x: int) -> bool {
    i64::MIN <= x <= i64::MAX
}

/// The running total after the first `k` child costs have been added to the
/// scale unit, or `None` as soon as a partial total leaves the cost range.
pub open spec fn acc_after(cc: Seq<i64>, k: int) -> Option<int>
    decreases k,
{
    if k <= 0 {
        Some(COST_SCALE as int)
    } else {
        match acc_after(cc, k - 1) {
            Option::None => None,
            Option::Some(a) => {
                if in_i64(a + cc[k - 1]) {
                    Some(a + cc[k - 1])
                } else {
                    None
                }
            },
        }
    }
}

/// The ache-biased node cost: `COST_SCALE` plus the child costs, minus
/// `lambda` times the ache aggregate; `None` exactly when a partial total,
/// the penalty, or the result leaves the machine range.
pub open spec fn cost_value(lambda: u64, cc: Seq<i64>, asum: int) -> Option<i64> {
    match acc_after(cc, cc.len() as int) {
        Option::None => None,
        Option::Some(a) => {
            if lambda * asum > u64::MAX {
                None
            } else if lambda * asum > i64::MAX {
                None
            } else if in_i64(a - lambda * asum) {
                Some((a - lambda * asum) as i64)
            } else {
                None
            }
        },
    }
}

proof fn lemma_acc_after_none(cc: Seq<i64>, k: int, n: int)
    requires
        acc_after(cc, k) is None,
        k <= n,
    ensures
        acc_after(cc, n) is None,
    decreases n,
{
    if k < n {
        lemma_acc_after_none(cc, k, n - 1);
    }
}

/// The ache-biased cost metric: scaled structural size minus `lambda` times
/// the owning class's ache aggregate.
pub struct AcheBiCost {
    pub lambda: u64,
}

impl AcheBiCost {
    /// The cost of one node given its children's already-computed costs and
    /// its class's ache aggregate: exactly `cost_value`, which is
    /// `COST_SCALE + sum(child costs) - lambda * ache_sum` whenever no
    /// intermediate leaves the machine range, and `None` exactly otherwise.
    pub fn cost(&self, child_costs: &Vec<i64>, asum: u64) -> (r: Option<i64>)
        ensures
            r == cost_value(self.lambda, child_costs@, asum as int),
            r matches Some(v) ==> v == COST_SCALE + sum_of(child_costs@) - self.lambda * asum,
    {
        let mut acc: i64 = COST_SCALE;
        let mut k: usize = 0;
        while k < child_costs.len()
            invariant
                k <= child_costs@.len(),
                acc == COST_SCALE + sum_of(child_costs@.take(k as int)),
                acc_after(child_costs@, k as int) == Some(acc as int),
            decreases child_costs@.len() - k,
        {
            proof {
                assert(child_costs@.take(k as int + 1).drop_last() =~= child_costs@.take(
                    k as int,
                ));
            }
            acc = match acc.checked_add(child_costs[k]) {
                Some(v) => v,
                None => {
                    proof {
                        assert(acc_after(child_costs@, k as int + 1) is None);
                        lemma_acc_after_none(
                            child_costs@,
                            k as int + 1,
                            child_costs@.len() as int,
                        );
                    }
                    return None;
                },
            };
            k = k + 1;
        }
        proof {
            assert(child_costs@.take(child_costs@.len() as int) =~= child_costs@);
        }
        let pen: u64 = match self.lambda.checked_mul(asum) {
            Some(p) => p,
            None => {
                return None;
            },
        };
        if pen > 0x7FFF_FFFF_FFFF_FFFF {
            return None;
        }
        match acc.checked_sub(pen as i64) {
            Some(v) => Some(v),
            None => None,
        }
    }
}

/// The valid-witness condition: every chosen node index points at a node of
/// its class.
pub open spec fn best_wf(s: Ses, best: Seq<Option<usize>>) -> bool {
    &&& best.len() == s.len()
    &&& forall|c: int|
        0 <= c < best.len() ==> ((#[trigger] best[c]) matches Some(j) ==> (j as int)
            < s.classes@[c].nodes@.len())
}

/// The ache aggregate extraction charges class `c`: the sum of its vector's
/// components (zero in the unreachable case of a vector too long to sum).
pub open spec fn class_asum(s: Ses, c: int) -> int {
    if s.classes@[c].ache.vals@.len() < 0xFFFF_FFFF {
        ache_sum(s.classes@[c].ache.vals@)
    } else {
        0
    }
}

/// The recorded class costs of node `j`-of-class-`c`'s children, when all of
/// them are known.
pub open spec fn kids_costs(s: Ses, costs: Seq<Option<i64>>, c: int, j: int) -> Option<Seq<i64>> {
    let ch = s.classes@[c].nodes@[j].children@;
    if forall|k: int| 0 <= k < ch.len() ==> (#[trigger] costs[ch[k] as int]) is Some {
        Some(Seq::new(ch.len(), |k: int| costs[ch[k] as int]->Some_0))
    } else {
        None
    }
}

/// The metric value of node `j` of class `c` under the current class-cost
/// table: its own cost plus its children's recorded class costs.
pub open spec fn node_cost(s: Ses, lambda: u64, costs: Seq<Option<i64>>, c: int, j: int) -> Option<
    i64,
> {
    match kids_costs(s, costs, c, j) {
        Option::None => None,
        Option::Some(cc) => cost_value(lambda, cc, class_asum(s, c)),
    }
}

/// No member node's metric value beats its class's recorded cost.
pub open spec fn costs_minimal(s: Ses, lambda: u64, costs: Seq<Option<i64>>) -> bool {
    forall|c: int, j: int|
        0 <= c < s.classes@.len() && 0 <= j < s.classes@[c].nodes@.len() ==> ((
        #[trigger] node_cost(s, lambda, costs, c, j)) matches Some(v) ==> costs[c] is Some
            && costs[c]->Some_0 <= v)
}

/// Every recorded class cost is realized exactly by its recorded witness
/// node.
pub open spec fn costs_consistent(
    s: Ses,
    lambda: u64,
    costs: Seq<Option<i64>>,
    best: Seq<Option<usize>>,
) -> bool {
    forall|c: int|
        0 <= c < s.classes@.len() && (#[trigger] costs[c]) is Some ==> (best[c] matches Some(j)
            && (j as int) < s.classes@[c].nodes@.len() && node_cost(s, lambda, costs, c, j as int)
            == costs[c])
}

/// Some minimal, witness-consistent cost table assigns class `root` the cost
/// `cost`: the class-wise fixpoint equations of the extraction DP hold of it.
pub open spec fn valid_class_cost(s: Ses, lambda: u64, root: int, cost: i64) -> bool {
    exists|costs: Seq<Option<i64>>, best: Seq<Option<usize>>|
        costs.len() == s.len() && best_wf(s, best) && #[trigger] costs_consistent(
            s,
            lambda,
            costs,
            best,
        ) && costs_minimal(s, lambda, costs) && costs[root] == Some(cost)
}

/// Recomputes every member node's metric value against the finished tables
/// and confirms the fixpoint: no node beats its class's recorded cost, and
/// each recorded cost is realized by its recorded witness.
fn verify_costs(
    ses: &Ses,
    lambda: u64,
    costs: &Vec<Option<i64>>,
    best: &Vec<Option<usize>>,
) -> (r: bool)
    requires
        ses.wf(),
        costs@.len() == ses.len(),
        best_wf(*ses, best@),
        forall|c: int| 0 <= c < ses.len() ==> ((#[trigger] best@[c]) is Some <==> costs@[c] is Some),
    ensures
        r ==> costs_minimal(*ses, lambda, costs@) && costs_consistent(*ses, lambda, costs@, best@),
{
    let metric = AcheBiCost { lambda };
    let n = ses.classes.len();
    let mut c: usize = 0;
    while c < n
        invariant
            ses.wf(),
            n == ses.len(),
            metric.lambda == lambda,
            costs@.len() == n,
            best_wf(*ses, best@),
            forall|c2: int|
                0 <= c2 < n ==> ((#[trigger] best@[c2]) is Some <==> costs@[c2] is Some),
            c <= n,
            forall|c2: int, j: int|
                0 <= c2 < c && 0 <= j < ses.classes@[c2].nodes@.len() ==> ((
                #[trigger] node_cost(*ses, lambda, costs@, c2, j)) matches Some(v)
                    ==> costs@[c2] is Some && costs@[c2]->Some_0 <= v),
            forall|c2: int|
                0 <= c2 < c && (#[trigger] costs@[c2]) is Some ==> (best@[c2] matches Some(j)
                    && (j as int) < ses.classes@[c2].nodes@.len() && node_cost(
                    *ses,
                    lambda,
                    costs@,
                    c2,
                    j as int,
                ) == costs@[c2]),
        decreases n - c,
    {
        let m = ses.classes[c].nodes.len();
        let asum: u64 = if ses.classes[c].ache.vals.len() < 0xFFFF_FFFF {
            ses.classes[c].ache.sum()
        } else {
            0
        };
        let mut j: usize = 0;
        while j < m
            invariant
                ses.wf(),
                n == ses.len(),
                metric.lambda == lambda,
                costs@.len() == n,
                best_wf(*ses, best@),
                forall|c2: int|
                    0 <= c2 < n ==> ((#[trigger] best@[c2]) is Some <==> costs@[c2] is Some),
                c < n,
                m == ses.classes@[c as int].nodes@.len(),
                asum as int == class_asum(*ses, c as int),
                j <= m,
                forall|j2: int|
                    0 <= j2 < j ==> ((#[trigger] node_cost(*ses, lambda, costs@, c as int, j2))
                        matches Some(v) ==> costs@[c as int] is Some && costs@[c as int]->Some_0
                        <= v),
                forall|j2: int|
                    0 <= j2 < j && best@[c as int] == Some(j2 as usize) && costs@[c as int]
                        is Some ==> node_cost(*ses, lambda, costs@, c as int, j2) == costs@[c
                        as int],
            decreases m - j,
        {
            let nk = ses.classes[c].nodes[j].children.len();
            let mut cc: Vec<i64> = Vec::new();
            let mut ok = true;
            let mut k: usize = 0;
            while k < nk
                invariant
                    ses.wf(),
                    n == ses.len(),
                    c < n,
                    j < ses.classes@[c as int].nodes@.len(),
                    nk == ses.classes@[c as int].nodes@[j as int].children@.len(),
                    k <= nk,
                    costs@.len() == n,
                    ok ==> cc@.len() == k,
                    ok ==> forall|k2: int|
                        0 <= k2 < k ==> (#[trigger] costs@[ses.classes@[c as int].nodes@[j
                            as int].children@[k2] as int]) is Some && cc@[k2] == costs@[ses
                            .classes@[c as int].nodes@[j as int].children@[k2] as int]->Some_0,
                    !ok ==> exists|k2: int|
                        0 <= k2 < k && !((#[trigger] costs@[ses.classes@[c as int].nodes@[j
                            as int].children@[k2] as int]) is Some),
                decreases nk - k,
            {
                proof {
                    assert(crate::ses::node_valid(
                        ses.classes@[c as int].nodes@[j as int],
                        ses.len() as int,
                    ));
                }
                let kid = ses.classes[c].nodes[j].children[k];
                match costs[kid] {
                    Some(v) => {
                        cc.push(v);
                    },
                    None => {
                        ok = false;
                    },
                }
                k = k + 1;
            }
            let computed: Option<i64> = if ok {
                proof {
                    assert(kids_costs(*ses, costs@, c as int, j as int) == Some(cc@)) by {
                        let ch = ses.classes@[c as int].nodes@[j as int].children@;
                        assert(cc@ =~= Seq::new(ch.len(), |k: int| costs@[ch[k] as int]->Some_0));
                    }
                }
                metric.cost(&cc, asum)
            } else {
                proof {
                    assert(kids_costs(*ses, costs@, c as int, j as int) is None);
                }
                None
            };
            proof {
                assert(node_cost(*ses, lambda, costs@, c as int, j as int) == computed);
            }
            match computed {
                Some(v) => {
                    match costs[c] {
                        Some(cur) => {
                            if v < cur {
                                return false;
                            }
                        },
                        None => {
                            return false;
                        },
                    }
                },
                None => {},
            }
            let is_witness: bool = match best[c] {
                Some(bj) => bj == j,
                None => false,
            };
            if is_witness {
                let agree: bool = match (computed, costs[c]) {
                    (Some(v), Some(cur)) => v == cur,
                    _ => false,
                };
                if !agree {
                    return false;
                }
            }
            j = j + 1;
        }
        proof {
            if costs@[c as int] is Some {
                let bj = best@[c as int]->Some_0;
                assert(best@[c as int] is Some);
                assert((bj as int) < m);
                assert(node_cost(*ses, lambda, costs@, c as int, bj as int) == costs@[c as int]);
            }
        }
        c = c + 1;
    }
    true
}

/// Computes, for every class, the minimal cost over its member nodes (each
/// node costing its metric value plus its children's minimal class costs) by
/// relaxation sweeps until costs stop improving, bounded by one sweep per
/// class. Of a class's equal-cost minimal nodes the last-added one is the
/// recorded witness, a fixed order that prefers newly learned forms and keeps
/// extraction reproducible. The settled flag reports whether the finished
/// tables passed the fixpoint check: no member node beats its class's cost
/// and every cost is realized by its witness.
pub fn extract_costs(ses: &Ses, lambda: u64) -> (r: (Vec<Option<i64>>, Vec<Option<usize>>, bool))
    requires
        ses.wf(),
        all_canonical(*ses),
    ensures
        r.0@.len() == ses.len(),
        best_wf(*ses, r.1@),
        forall|c: int|
            0 <= c < ses.len() ==> ((#[trigger] r.1@[c]) is Some <==> r.0@[c] is Some),
        r.2 ==> costs_minimal(*ses, lambda, r.0@) && costs_consistent(*ses, lambda, r.0@, r.1@),
{
    let n = ses.classes.len();
    let mut costs: Vec<Option<i64>> = Vec::new();
    let mut best: Vec<Option<usize>> = Vec::new();
    let mut i: usize = 0;
    while i < n
        invariant
            i <= n,
            costs@.len() == i,
            best@.len() == i,
            forall|c: int| 0 <= c < i ==> (#[trigger] costs@[c]) is None,
            forall|c: int| 0 <= c < i ==> (#[trigger] best@[c]) is None,
        decreases n - i,
    {
        costs.push(None);
        best.push(None);
        i = i + 1;
    }
    let metric = AcheBiCost { lambda };
    let mut pass: usize = 0;
    let mut changed = true;
    while changed && pass < n
        invariant
            ses.wf(),
            all_canonical(*ses),
            n == ses.len(),
            pass <= n,
            costs@.len() == n,
            best@.len() == n,
            best_wf(*ses, best@),
            forall|c: int| 0 <= c < n ==> ((#[trigger] best@[c]) is Some <==> costs@[c] is Some),
        decreases n - pass,
    {
        changed = false;
        let mut c: usize = 0;
        while c < n
            invariant
                ses.wf(),
                all_canonical(*ses),
                n == ses.len(),
                c <= n,
                costs@.len() == n,
                best@.len() == n,
                best_wf(*ses, best@),
                forall|c2: int|
                    0 <= c2 < n ==> ((#[trigger] best@[c2]) is Some <==> costs@[c2] is Some),
            decreases n - c,
        {
            let m = ses.classes[c].nodes.len();
            let asum: u64 = if ses.classes[c].ache.vals.len() < 0xFFFF_FFFF {
                ses.classes[c].ache.sum()
            } else {
                0
            };
            let mut j: usize = 0;
            while j < m
                invariant
                    ses.wf(),
                    all_canonical(*ses),
                    n == ses.len(),
                    c < n,
                    m == ses.classes@[c as int].nodes@.len(),
                    j <= m,
                    costs@.len() == n,
                    best@.len() == n,
                    best_wf(*ses, best@),
                    forall|c2: int|
                        0 <= c2 < n ==> ((#[trigger] best@[c2]) is Some <==> costs@[c2] is Some),
                decreases m - j,
            {
                let nk = ses.classes[c].nodes[j].children.len();
                let mut cc: Vec<i64> = Vec::new();
                let mut ok = true;
                let mut k: usize = 0;
                while k < nk
                    invariant
                        ses.wf(),
                        n == ses.len(),
                        c < n,
                        j < ses.classes@[c as int].nodes@.len(),
                        nk == ses.classes@[c as int].nodes@[j as int].children@.len(),
                        k <= nk,
                        costs@.len() == n,
                    decreases nk - k,
                {
                    proof {
                        assert(crate::ses::node_valid(
                            ses.classes@[c as int].nodes@[j as int],
                            ses.len() as int,
                        ));
                    }
                    let kid = ses.classes[c].nodes[j].children[k];
                    match costs[kid] {
                        Some(v) => {
                            cc.push(v);
                        },
                        None => {
                            ok = false;
                        },
                    }
                    k = k + 1;
                }
                if ok {
                    match metric.cost(&cc, asum) {
                        Some(v) => {
                            let better = match costs[c] {
                                Some(cur) => v < cur,
                                None => true,
                            };
                            let tie_later = match costs[c] {
                                Some(cur) => v == cur && (match best[c] {
                                    Some(bj) => bj < j,
                                    None => true,
                                }),
                                None => false,
                            };
                            if better {
                                costs[c] = Some(v);
                                best[c] = Some(j);
                                changed = true;
                            } else if tie_later {
                                best[c] = Some(j);
                                changed = true;
                            }
                        },
                        None => {},
                    }
                }
                j = j + 1;
            }
            c = c + 1;
        }
        pass = pass + 1;
    }
    let settled = verify_costs(ses, lambda, &costs, &best);
    (costs, best, settled)
}

/// Reconstructs the chosen expression for class `c` by following witnesses,
/// guarded by `fuel` so a degenerate cost landscape cannot recurse forever.
/// The subtree is appended to `out`; the returned position is its root.
pub fn build_best(
    ses: &Ses,
    best: &Vec<Option<usize>>,
    c: usize,
    fuel: usize,
    out: &mut Expr,
) -> (r: Option<usize>)
    requires
        ses.wf(),
        all_canonical(*ses),
        best_wf(*ses, best@),
        c < ses.len(),
        old(out).wf(),
    ensures
        final(out).wf(),
        old(out).len() <= final(out).len(),
        forall|i: int| 0 <= i < old(out).len() ==> final(out).nodes@[i] == old(out).nodes@[i],
        r matches Some(i) ==> ((i as int) < final(out).len() && (best@[c as int] matches Some(j)
            && final(out).nodes@[i as int].op@ == ses.classes@[c as int].nodes@[j as int].op@
            && final(out).nodes@[i as int].children@.len() == ses.classes@[c as int].nodes@[j
            as int].children@.len())),
    decreases fuel,
{
    if fuel == 0 {
        return None;
    }
    let fuel_next = fuel - 1;
    let j = match best[c] {
        Some(j) => j,
        None => {
            return None;
        },
    };
    proof {
        assert(crate::ses::node_valid(ses.classes@[c as int].nodes@[j as int], ses.len() as int));
        assert(crate::rebuild::node_canonical(
            ses.p(),
            ses.classes@[c as int].nodes@[j as int],
        ));
    }
    let nk = ses.classes[c].nodes[j].children.len();
    let mut ch: Vec<usize> = Vec::new();
    let mut k: usize = 0;
    while k < nk
        invariant
            ses.wf(),
            all_canonical(*ses),
            best_wf(*ses, best@),
            c < ses.len(),
            j < ses.classes@[c as int].nodes@.len(),
            nk == ses.classes@[c as int].nodes@[j as int].children@.len(),
            fuel >= 1,
            fuel_next == fuel - 1,
            k <= nk,
            out.wf(),
            old(out).len() <= out.len(),
            forall|i: int| 0 <= i < old(out).len() ==> out.nodes@[i] == old(out).nodes@[i],
            ch@.len() == k,
            forall|u: int| 0 <= u < ch@.len() ==> (#[trigger] ch@[u]) < out.len(),
        decreases nk - k,
    {
        proof {
            assert(crate::ses::node_valid(
                ses.classes@[c as int].nodes@[j as int],
                ses.len() as int,
            ));
            assert(crate::rebuild::node_canonical(
                ses.p(),
                ses.classes@[c as int].nodes@[j as int],
            ));
        }
        let kid = ses.classes[c].nodes[j].children[k];
        let ghost pre = *out;
        let sub = build_best(ses, best, kid, fuel_next, out);
        match sub {
            Some(i) => {
                proof {
                    assert forall|u: int| 0 <= u < ch@.len() implies (#[trigger] ch@[u])
                        < out.len() by {}
                }
                ch.push(i);
            },
            None => {
                return None;
            },
        }
        k = k + 1;
    }
    let op = ses.classes[c].nodes[j].op.clone();
    let idx = out.push_node(op, ch);
    Some(idx)
}

/// Extracts the minimal-cost representative of class `root` under the
/// ache-biased metric with the given weight; `lambda == 0` is the pure
/// structural-size metric. On success the returned cost is class `root`'s
/// entry in a minimal, witness-consistent cost table (the extraction DP's
/// fixpoint equations), and the returned expression is a nonempty well-formed
/// tree built from the recorded witnesses. `None` when the class has no
/// finite-cost member, when the fixpoint check fails, or when reconstruction
/// runs out of fuel on a degenerate cost landscape.
pub fn extract(ses: &Ses, root: usize, lambda: u64) -> (r: Option<(i64, Expr)>)
    requires
        ses.wf(),
        all_canonical(*ses),
        root < ses.len(),
    ensures
        r matches Some(p) ==> p.1.wf() && p.1.len() >= 1 && valid_class_cost(
            *ses,
            lambda,
            root as int,
            p.0,
        ),
{
    let computed = extract_costs(ses, lambda);
    let costs = computed.0;
    let best = computed.1;
    let settled = computed.2;
    if !settled {
        return None;
    }
    let cost = match costs[root] {
        Some(v) => v,
        None => {
            return None;
        },
    };
    proof {
        assert(costs_consistent(*ses, lambda, costs@, best@));
        assert(costs@[root as int] == Some(cost));
        assert(valid_class_cost(*ses, lambda, root as int, cost));
    }
    let mut out = Expr::new();
    let fuel = ses.classes.len();
    match build_best(ses, &best, root, fuel, &mut out) {
        Some(_i) => Some((cost, out)),
        None => None,
    }
}

} // verus!
