//! An equality-saturation optimizer for symbolic expression programs.
//!
//! The engine keeps every discovered-equal form of an input expression in a
//! shared equivalence-class graph (hashconsing plus union-find), applies
//! rewrite rules as additions of equivalences, restores congruence after each
//! batch of merges, propagates an "ache" heuristic vector through merges, and
//! finally extracts minimal-cost representatives under pluggable cost metrics.
//!
//! Weights and costs are fixed-point integers: ache components are in
//! hundredths, the weight `lambda` is in thousandths, and extraction costs
//! carry a scale of one hundred thousand per structural node.

use vstd::prelude::*;
use vstd::string::*;

pub mod ache;
pub mod candidates;
pub mod export;
pub mod extract;
pub mod pattern;
pub mod rebuild;
pub mod saturate;
pub mod ses;
pub mod strs;
pub mod uf;
pub mod web;

use crate::candidates::{generate_candidates, Candidate};
use crate::export::{export_graph, GraphExport};
use crate::expr::Expr;
use crate::pattern::{is_app1, is_app2, is_var, lemma_wf_app1, lemma_wf_app2, lemma_wf_var, pnode_wf, PNode, Pattern, Rule};
use crate::saturate::{run_saturation, SatState, TraceEvent};
use crate::ses::Ses;
use crate::uf::root_of;

pub mod expr;

verus! {

/// Everything one optimization run produces: the graph snapshot, the rewrite
/// trace, the candidate list, and the controller's terminal state with the
/// per-round mutation counts.
pub struct RunOutput {
    pub graph: GraphExport,
    pub trace: Vec<TraceEvent>,
    pub nbest: Vec<Candidate>,
    pub state: SatState,
    pub rounds: Vec<u64>,
}

fn mk_vars1(a: &str) -> (r: Vec<String>)
    ensures
        r@.len() == 1,
        r@[0]@ == a@,
{
    let mut v: Vec<String> = Vec::new();
    v.push(String::from_str(a));
    v
}

fn mk_vars2(a: &str, b: &str) -> (r: Vec<String>)
    ensures
        r@.len() == 2,
        r@[0]@ == a@,
        r@[1]@ == b@,
{
    let mut v: Vec<String> = Vec::new();
    v.push(String::from_str(a));
    v.push(String::from_str(b));
    v
}

fn mk_vars3(a: &str, b: &str, c: &str) -> (r: Vec<String>)
    ensures
        r@.len() == 3,
        r@[0]@ == a@,
        r@[1]@ == b@,
        r@[2]@ == c@,
{
    let mut v: Vec<String> = Vec::new();
    v.push(String::from_str(a));
    v.push(String::from_str(b));
    v.push(String::from_str(c));
    v
}

fn pv(nodes: &mut Vec<PNode>, v: usize)
    ensures
        final(nodes)@.len() == old(nodes)@.len() + 1,
        forall|i: int| 0 <= i < old(nodes)@.len() ==> final(nodes)@[i] == old(nodes)@[i],
        is_var(final(nodes)@[old(nodes)@.len() as int], v as int),
{
    nodes.push(PNode::Var(v));
}

fn pa1(nodes: &mut Vec<PNode>, op: &str, k0: usize)
    ensures
        final(nodes)@.len() == old(nodes)@.len() + 1,
        forall|i: int| 0 <= i < old(nodes)@.len() ==> final(nodes)@[i] == old(nodes)@[i],
        is_app1(final(nodes)@[old(nodes)@.len() as int], op@, k0 as int),
{
    let mut ch: Vec<usize> = Vec::new();
    ch.push(k0);
    nodes.push(PNode::App { op: String::from_str(op), children: ch });
}

fn pa2(nodes: &mut Vec<PNode>, op: &str, k0: usize, k1: usize)
    ensures
        final(nodes)@.len() == old(nodes)@.len() + 1,
        forall|i: int| 0 <= i < old(nodes)@.len() ==> final(nodes)@[i] == old(nodes)@[i],
        is_app2(final(nodes)@[old(nodes)@.len() as int], op@, k0 as int, k1 as int),
{
    let mut ch: Vec<usize> = Vec::new();
    ch.push(k0);
    ch.push(k1);
    nodes.push(PNode::App { op: String::from_str(op), children: ch });
}

/// The rule `(map ?f (map ?g ?x)) => (map (compose ?f ?g) ?x)`, named `map-fusion`.
pub open spec fn is_map_fusion(r: Rule) -> bool {
    &&& r.name@ == "map-fusion"@
    &&& r.lhs.vars@.len() == 3 && r.rhs.vars@.len() == 3
    &&& r.lhs.vars@[0]@ == "f"@
    &&& r.rhs.vars@[0]@ == "f"@
    &&& r.lhs.vars@[1]@ == "g"@
    &&& r.rhs.vars@[1]@ == "g"@
    &&& r.lhs.vars@[2]@ == "x"@
    &&& r.rhs.vars@[2]@ == "x"@
    &&& r.lhs.nodes@.len() == 5
    &&& is_var(r.lhs.nodes@[0], 0)
    &&& is_var(r.lhs.nodes@[1], 1)
    &&& is_var(r.lhs.nodes@[2], 2)
    &&& is_app2(r.lhs.nodes@[3], "map"@, 1, 2)
    &&& is_app2(r.lhs.nodes@[4], "map"@, 0, 3)
    &&& r.rhs.nodes@.len() == 5
    &&& is_var(r.rhs.nodes@[0], 0)
    &&& is_var(r.rhs.nodes@[1], 1)
    &&& is_app2(r.rhs.nodes@[2], "compose"@, 0, 1)
    &&& is_var(r.rhs.nodes@[3], 2)
    &&& is_app2(r.rhs.nodes@[4], "map"@, 2, 3)
}
/// The rule `(filter ?p (filter ?q ?x)) => (filter (and ?p ?q) ?x)`, named `filter-fusion`.
pub open spec fn is_filter_fusion(r: Rule) -> bool {
    &&& r.name@ == "filter-fusion"@
    &&& r.lhs.vars@.len() == 3 && r.rhs.vars@.len() == 3
    &&& r.lhs.vars@[0]@ == "p"@
    &&& r.rhs.vars@[0]@ == "p"@
    &&& r.lhs.vars@[1]@ == "q"@
    &&& r.rhs.vars@[1]@ == "q"@
    &&& r.lhs.vars@[2]@ == "x"@
    &&& r.rhs.vars@[2]@ == "x"@
    &&& r.lhs.nodes@.len() == 5
    &&& is_var(r.lhs.nodes@[0], 0)
    &&& is_var(r.lhs.nodes@[1], 1)
    &&& is_var(r.lhs.nodes@[2], 2)
    &&& is_app2(r.lhs.nodes@[3], "filter"@, 1, 2)
    &&& is_app2(r.lhs.nodes@[4], "filter"@, 0, 3)
    &&& r.rhs.nodes@.len() == 5
    &&& is_var(r.rhs.nodes@[0], 0)
    &&& is_var(r.rhs.nodes@[1], 1)
    &&& is_app2(r.rhs.nodes@[2], "and"@, 0, 1)
    &&& is_var(r.rhs.nodes@[3], 2)
    &&& is_app2(r.rhs.nodes@[4], "filter"@, 2, 3)
}
/// The rule `(filter (lift ?p) (map ?f ?x)) => (map ?f (filter ?p ?x))`, named `filter-push-map`.
pub open spec fn is_filter_push_map(r: Rule) -> bool {
    &&& r.name@ == "filter-push-map"@
    &&& r.lhs.vars@.len() == 3 && r.rhs.vars@.len() == 3
    &&& r.lhs.vars@[0]@ == "p"@
    &&& r.rhs.vars@[0]@ == "p"@
    &&& r.lhs.vars@[1]@ == "f"@
    &&& r.rhs.vars@[1]@ == "f"@
    &&& r.lhs.vars@[2]@ == "x"@
    &&& r.rhs.vars@[2]@ == "x"@
    &&& r.lhs.nodes@.len() == 6
    &&& is_var(r.lhs.nodes@[0], 0)
    &&& is_app1(r.lhs.nodes@[1], "lift"@, 0)
    &&& is_var(r.lhs.nodes@[2], 1)
    &&& is_var(r.lhs.nodes@[3], 2)
    &&& is_app2(r.lhs.nodes@[4], "map"@, 2, 3)
    &&& is_app2(r.lhs.nodes@[5], "filter"@, 1, 4)
    &&& r.rhs.nodes@.len() == 5
    &&& is_var(r.rhs.nodes@[0], 0)
    &&& is_var(r.rhs.nodes@[1], 2)
    &&& is_app2(r.rhs.nodes@[2], "filter"@, 0, 1)
    &&& is_var(r.rhs.nodes@[3], 1)
    &&& is_app2(r.rhs.nodes@[4], "map"@, 3, 2)
}
/// The rule `(normalize (normalize ?x)) => (normalize ?x)`, named `normalize-idem`.
pub open spec fn is_normalize_idem(r: Rule) -> bool {
    &&& r.name@ == "normalize-idem"@
    &&& r.lhs.vars@.len() == 1 && r.rhs.vars@.len() == 1
    &&& r.lhs.vars@[0]@ == "x"@
    &&& r.rhs.vars@[0]@ == "x"@
    &&& r.lhs.nodes@.len() == 3
    &&& is_var(r.lhs.nodes@[0], 0)
    &&& is_app1(r.lhs.nodes@[1], "normalize"@, 0)
    &&& is_app1(r.lhs.nodes@[2], "normalize"@, 1)
    &&& r.rhs.nodes@.len() == 2
    &&& is_var(r.rhs.nodes@[0], 0)
    &&& is_app1(r.rhs.nodes@[1], "normalize"@, 0)
}
/// The rule `(+ ?a ?b) => (+ ?b ?a)`, named `add-comm`.
pub open spec fn is_add_comm(r: Rule) -> bool {
    &&& r.name@ == "add-comm"@
    &&& r.lhs.vars@.len() == 2 && r.rhs.vars@.len() == 2
    &&& r.lhs.vars@[0]@ == "a"@
    &&& r.rhs.vars@[0]@ == "a"@
    &&& r.lhs.vars@[1]@ == "b"@
    &&& r.rhs.vars@[1]@ == "b"@
    &&& r.lhs.nodes@.len() == 3
    &&& is_var(r.lhs.nodes@[0], 0)
    &&& is_var(r.lhs.nodes@[1], 1)
    &&& is_app2(r.lhs.nodes@[2], "+"@, 0, 1)
    &&& r.rhs.nodes@.len() == 3
    &&& is_var(r.rhs.nodes@[0], 0)
    &&& is_var(r.rhs.nodes@[1], 1)
    &&& is_app2(r.rhs.nodes@[2], "+"@, 1, 0)
}
/// The rule `(* ?a ?b) => (* ?b ?a)`, named `mul-comm`.
pub open spec fn is_mul_comm(r: Rule) -> bool {
    &&& r.name@ == "mul-comm"@
    &&& r.lhs.vars@.len() == 2 && r.rhs.vars@.len() == 2
    &&& r.lhs.vars@[0]@ == "a"@
    &&& r.rhs.vars@[0]@ == "a"@
    &&& r.lhs.vars@[1]@ == "b"@
    &&& r.rhs.vars@[1]@ == "b"@
    &&& r.lhs.nodes@.len() == 3
    &&& is_var(r.lhs.nodes@[0], 0)
    &&& is_var(r.lhs.nodes@[1], 1)
    &&& is_app2(r.lhs.nodes@[2], "*"@, 0, 1)
    &&& r.rhs.nodes@.len() == 3
    &&& is_var(r.rhs.nodes@[0], 0)
    &&& is_var(r.rhs.nodes@[1], 1)
    &&& is_app2(r.rhs.nodes@[2], "*"@, 1, 0)
}

/// The default rule set, in application order: map fusion, filter fusion,
/// pushing a lifted filter under a map, normalize idempotence, and
/// commutativity of addition and multiplication. Patterns are immutable
/// values once built.
pub fn default_rewrites() -> (r: Vec<Rule>)
    ensures
        r@.len() == 6,
        forall|i: int| 0 <= i < r@.len() ==> (#[trigger] r@[i]).wf(),
        is_map_fusion(r@[0]),
        is_filter_fusion(r@[1]),
        is_filter_push_map(r@[2]),
        is_normalize_idem(r@[3]),
        is_add_comm(r@[4]),
        is_mul_comm(r@[5]),
{
    let mut out: Vec<Rule> = Vec::new();

    // (map ?f (map ?g ?x)) => (map (compose ?f ?g) ?x)
    let mut l0: Vec<PNode> = Vec::new();
    pv(&mut l0, 0);
    pv(&mut l0, 1);
    pv(&mut l0, 2);
    pa2(&mut l0, "map", 1, 2);
    pa2(&mut l0, "map", 0, 3);
    let mut r0: Vec<PNode> = Vec::new();
    pv(&mut r0, 0);
    pv(&mut r0, 1);
    pa2(&mut r0, "compose", 0, 1);
    pv(&mut r0, 2);
    pa2(&mut r0, "map", 2, 3);
    let rule0 = Rule {
        name: String::from_str("map-fusion"),
        lhs: Pattern { vars: mk_vars3("f", "g", "x"), nodes: l0 },
        rhs: Pattern { vars: mk_vars3("f", "g", "x"), nodes: r0 },
    };
    proof {
        assert forall|i2: int| 0 <= i2 < rule0.lhs.nodes@.len() implies pnode_wf(
            #[trigger] rule0.lhs.nodes@[i2],
            i2,
            rule0.lhs.vars@.len() as int,
        ) by {
            if i2 == 0 {
                lemma_wf_var(rule0.lhs.nodes@[0], 0, 0, 3);
            } else if i2 == 1 {
                lemma_wf_var(rule0.lhs.nodes@[1], 1, 1, 3);
            } else if i2 == 2 {
                lemma_wf_var(rule0.lhs.nodes@[2], 2, 2, 3);
            } else if i2 == 3 {
                lemma_wf_app2(rule0.lhs.nodes@[3], "map"@, 1, 2, 3, 3);
            } else if i2 == 4 {
                lemma_wf_app2(rule0.lhs.nodes@[4], "map"@, 0, 3, 4, 3);
            }
        }
        assert forall|i2: int| 0 <= i2 < rule0.rhs.nodes@.len() implies pnode_wf(
            #[trigger] rule0.rhs.nodes@[i2],
            i2,
            rule0.rhs.vars@.len() as int,
        ) by {
            if i2 == 0 {
                lemma_wf_var(rule0.rhs.nodes@[0], 0, 0, 3);
            } else if i2 == 1 {
                lemma_wf_var(rule0.rhs.nodes@[1], 1, 1, 3);
            } else if i2 == 2 {
                lemma_wf_app2(rule0.rhs.nodes@[2], "compose"@, 0, 1, 2, 3);
            } else if i2 == 3 {
                lemma_wf_var(rule0.rhs.nodes@[3], 2, 3, 3);
            } else if i2 == 4 {
                lemma_wf_app2(rule0.rhs.nodes@[4], "map"@, 2, 3, 4, 3);
            }
        }
        assert(rule0.wf());
        assert(is_map_fusion(rule0));
    }
    out.push(rule0);
    // (filter ?p (filter ?q ?x)) => (filter (and ?p ?q) ?x)
    let mut l1: Vec<PNode> = Vec::new();
    pv(&mut l1, 0);
    pv(&mut l1, 1);
    pv(&mut l1, 2);
    pa2(&mut l1, "filter", 1, 2);
    pa2(&mut l1, "filter", 0, 3);
    let mut r1: Vec<PNode> = Vec::new();
    pv(&mut r1, 0);
    pv(&mut r1, 1);
    pa2(&mut r1, "and", 0, 1);
    pv(&mut r1, 2);
    pa2(&mut r1, "filter", 2, 3);
    let rule1 = Rule {
        name: String::from_str("filter-fusion"),
        lhs: Pattern { vars: mk_vars3("p", "q", "x"), nodes: l1 },
        rhs: Pattern { vars: mk_vars3("p", "q", "x"), nodes: r1 },
    };
    proof {
        assert forall|i2: int| 0 <= i2 < rule1.lhs.nodes@.len() implies pnode_wf(
            #[trigger] rule1.lhs.nodes@[i2],
            i2,
            rule1.lhs.vars@.len() as int,
        ) by {
            if i2 == 0 {
                lemma_wf_var(rule1.lhs.nodes@[0], 0, 0, 3);
            } else if i2 == 1 {
                lemma_wf_var(rule1.lhs.nodes@[1], 1, 1, 3);
            } else if i2 == 2 {
                lemma_wf_var(rule1.lhs.nodes@[2], 2, 2, 3);
            } else if i2 == 3 {
                lemma_wf_app2(rule1.lhs.nodes@[3], "filter"@, 1, 2, 3, 3);
            } else if i2 == 4 {
                lemma_wf_app2(rule1.lhs.nodes@[4], "filter"@, 0, 3, 4, 3);
            }
        }
        assert forall|i2: int| 0 <= i2 < rule1.rhs.nodes@.len() implies pnode_wf(
            #[trigger] rule1.rhs.nodes@[i2],
            i2,
            rule1.rhs.vars@.len() as int,
        ) by {
            if i2 == 0 {
                lemma_wf_var(rule1.rhs.nodes@[0], 0, 0, 3);
            } else if i2 == 1 {
                lemma_wf_var(rule1.rhs.nodes@[1], 1, 1, 3);
            } else if i2 == 2 {
                lemma_wf_app2(rule1.rhs.nodes@[2], "and"@, 0, 1, 2, 3);
            } else if i2 == 3 {
                lemma_wf_var(rule1.rhs.nodes@[3], 2, 3, 3);
            } else if i2 == 4 {
                lemma_wf_app2(rule1.rhs.nodes@[4], "filter"@, 2, 3, 4, 3);
            }
        }
        assert(rule1.wf());
        assert(is_filter_fusion(rule1));
    }
    out.push(rule1);
    // (filter (lift ?p) (map ?f ?x)) => (map ?f (filter ?p ?x))
    let mut l2: Vec<PNode> = Vec::new();
    pv(&mut l2, 0);
    pa1(&mut l2, "lift", 0);
    pv(&mut l2, 1);
    pv(&mut l2, 2);
    pa2(&mut l2, "map", 2, 3);
    pa2(&mut l2, "filter", 1, 4);
    let mut r2: Vec<PNode> = Vec::new();
    pv(&mut r2, 0);
    pv(&mut r2, 2);
    pa2(&mut r2, "filter", 0, 1);
    pv(&mut r2, 1);
    pa2(&mut r2, "map", 3, 2);
    let rule2 = Rule {
        name: String::from_str("filter-push-map"),
        lhs: Pattern { vars: mk_vars3("p", "f", "x"), nodes: l2 },
        rhs: Pattern { vars: mk_vars3("p", "f", "x"), nodes: r2 },
    };
    proof {
        assert forall|i2: int| 0 <= i2 < rule2.lhs.nodes@.len() implies pnode_wf(
            #[trigger] rule2.lhs.nodes@[i2],
            i2,
            rule2.lhs.vars@.len() as int,
        ) by {
            if i2 == 0 {
                lemma_wf_var(rule2.lhs.nodes@[0], 0, 0, 3);
            } else if i2 == 1 {
                lemma_wf_app1(rule2.lhs.nodes@[1], "lift"@, 0, 1, 3);
            } else if i2 == 2 {
                lemma_wf_var(rule2.lhs.nodes@[2], 1, 2, 3);
            } else if i2 == 3 {
                lemma_wf_var(rule2.lhs.nodes@[3], 2, 3, 3);
            } else if i2 == 4 {
                lemma_wf_app2(rule2.lhs.nodes@[4], "map"@, 2, 3, 4, 3);
            } else if i2 == 5 {
                lemma_wf_app2(rule2.lhs.nodes@[5], "filter"@, 1, 4, 5, 3);
            }
        }
        assert forall|i2: int| 0 <= i2 < rule2.rhs.nodes@.len() implies pnode_wf(
            #[trigger] rule2.rhs.nodes@[i2],
            i2,
            rule2.rhs.vars@.len() as int,
        ) by {
            if i2 == 0 {
                lemma_wf_var(rule2.rhs.nodes@[0], 0, 0, 3);
            } else if i2 == 1 {
                lemma_wf_var(rule2.rhs.nodes@[1], 2, 1, 3);
            } else if i2 == 2 {
                lemma_wf_app2(rule2.rhs.nodes@[2], "filter"@, 0, 1, 2, 3);
            } else if i2 == 3 {
                lemma_wf_var(rule2.rhs.nodes@[3], 1, 3, 3);
            } else if i2 == 4 {
                lemma_wf_app2(rule2.rhs.nodes@[4], "map"@, 3, 2, 4, 3);
            }
        }
        assert(rule2.wf());
        assert(is_filter_push_map(rule2));
    }
    out.push(rule2);
    // (normalize (normalize ?x)) => (normalize ?x)
    let mut l3: Vec<PNode> = Vec::new();
    pv(&mut l3, 0);
    pa1(&mut l3, "normalize", 0);
    pa1(&mut l3, "normalize", 1);
    let mut r3: Vec<PNode> = Vec::new();
    pv(&mut r3, 0);
    pa1(&mut r3, "normalize", 0);
    let rule3 = Rule {
        name: String::from_str("normalize-idem"),
        lhs: Pattern { vars: mk_vars1("x"), nodes: l3 },
        rhs: Pattern { vars: mk_vars1("x"), nodes: r3 },
    };
    proof {
        assert forall|i2: int| 0 <= i2 < rule3.lhs.nodes@.len() implies pnode_wf(
            #[trigger] rule3.lhs.nodes@[i2],
            i2,
            rule3.lhs.vars@.len() as int,
        ) by {
            if i2 == 0 {
                lemma_wf_var(rule3.lhs.nodes@[0], 0, 0, 1);
            } else if i2 == 1 {
                lemma_wf_app1(rule3.lhs.nodes@[1], "normalize"@, 0, 1, 1);
            } else if i2 == 2 {
                lemma_wf_app1(rule3.lhs.nodes@[2], "normalize"@, 1, 2, 1);
            }
        }
        assert forall|i2: int| 0 <= i2 < rule3.rhs.nodes@.len() implies pnode_wf(
            #[trigger] rule3.rhs.nodes@[i2],
            i2,
            rule3.rhs.vars@.len() as int,
        ) by {
            if i2 == 0 {
                lemma_wf_var(rule3.rhs.nodes@[0], 0, 0, 1);
            } else if i2 == 1 {
                lemma_wf_app1(rule3.rhs.nodes@[1], "normalize"@, 0, 1, 1);
            }
        }
        assert(rule3.wf());
        assert(is_normalize_idem(rule3));
    }
    out.push(rule3);
    // (+ ?a ?b) => (+ ?b ?a)
    let mut l4: Vec<PNode> = Vec::new();
    pv(&mut l4, 0);
    pv(&mut l4, 1);
    pa2(&mut l4, "+", 0, 1);
    let mut r4: Vec<PNode> = Vec::new();
    pv(&mut r4, 0);
    pv(&mut r4, 1);
    pa2(&mut r4, "+", 1, 0);
    let rule4 = Rule {
        name: String::from_str("add-comm"),
        lhs: Pattern { vars: mk_vars2("a", "b"), nodes: l4 },
        rhs: Pattern { vars: mk_vars2("a", "b"), nodes: r4 },
    };
    proof {
        assert forall|i2: int| 0 <= i2 < rule4.lhs.nodes@.len() implies pnode_wf(
            #[trigger] rule4.lhs.nodes@[i2],
            i2,
            rule4.lhs.vars@.len() as int,
        ) by {
            if i2 == 0 {
                lemma_wf_var(rule4.lhs.nodes@[0], 0, 0, 2);
            } else if i2 == 1 {
                lemma_wf_var(rule4.lhs.nodes@[1], 1, 1, 2);
            } else if i2 == 2 {
                lemma_wf_app2(rule4.lhs.nodes@[2], "+"@, 0, 1, 2, 2);
            }
        }
        assert forall|i2: int| 0 <= i2 < rule4.rhs.nodes@.len() implies pnode_wf(
            #[trigger] rule4.rhs.nodes@[i2],
            i2,
            rule4.rhs.vars@.len() as int,
        ) by {
            if i2 == 0 {
                lemma_wf_var(rule4.rhs.nodes@[0], 0, 0, 2);
            } else if i2 == 1 {
                lemma_wf_var(rule4.rhs.nodes@[1], 1, 1, 2);
            } else if i2 == 2 {
                lemma_wf_app2(rule4.rhs.nodes@[2], "+"@, 1, 0, 2, 2);
            }
        }
        assert(rule4.wf());
        assert(is_add_comm(rule4));
    }
    out.push(rule4);
    // (* ?a ?b) => (* ?b ?a)
    let mut l5: Vec<PNode> = Vec::new();
    pv(&mut l5, 0);
    pv(&mut l5, 1);
    pa2(&mut l5, "*", 0, 1);
    let mut r5: Vec<PNode> = Vec::new();
    pv(&mut r5, 0);
    pv(&mut r5, 1);
    pa2(&mut r5, "*", 1, 0);
    let rule5 = Rule {
        name: String::from_str("mul-comm"),
        lhs: Pattern { vars: mk_vars2("a", "b"), nodes: l5 },
        rhs: Pattern { vars: mk_vars2("a", "b"), nodes: r5 },
    };
    proof {
        assert forall|i2: int| 0 <= i2 < rule5.lhs.nodes@.len() implies pnode_wf(
            #[trigger] rule5.lhs.nodes@[i2],
            i2,
            rule5.lhs.vars@.len() as int,
        ) by {
            if i2 == 0 {
                lemma_wf_var(rule5.lhs.nodes@[0], 0, 0, 2);
            } else if i2 == 1 {
                lemma_wf_var(rule5.lhs.nodes@[1], 1, 1, 2);
            } else if i2 == 2 {
                lemma_wf_app2(rule5.lhs.nodes@[2], "*"@, 0, 1, 2, 2);
            }
        }
        assert forall|i2: int| 0 <= i2 < rule5.rhs.nodes@.len() implies pnode_wf(
            #[trigger] rule5.rhs.nodes@[i2],
            i2,
            rule5.rhs.vars@.len() as int,
        ) by {
            if i2 == 0 {
                lemma_wf_var(rule5.rhs.nodes@[0], 0, 0, 2);
            } else if i2 == 1 {
                lemma_wf_var(rule5.rhs.nodes@[1], 1, 1, 2);
            } else if i2 == 2 {
                lemma_wf_app2(rule5.rhs.nodes@[2], "*"@, 1, 0, 2, 2);
            }
        }
        assert(rule5.wf());
        assert(is_mul_comm(rule5));
    }
    out.push(rule5);

    proof {
        assert forall|i: int| 0 <= i < out@.len() implies (#[trigger] out@[i]).wf() by {
            if i == 0 {
                assert(out@[0] == rule0);
            } else if i == 1 {
                assert(out@[1] == rule1);
            } else if i == 2 {
                assert(out@[2] == rule2);
            } else if i == 3 {
                assert(out@[3] == rule3);
            } else if i == 4 {
                assert(out@[4] == rule4);
            } else {
                assert(out@[5] == rule5);
            }
        }
        assert(out@[0] == rule0 && out@[1] == rule1 && out@[2] == rule2 && out@[3] == rule3
            && out@[4] == rule4 && out@[5] == rule5);
    }
    out
}

/// Resolves an id to its canonical id without touching the structure.
fn root_ro(ses: &Ses, x: usize) -> (r: usize)
    requires
        ses.wf(),
        x < ses.len(),
    ensures
        r as int == root_of(ses.p(), x as int),
        r < ses.len(),
        root_of(ses.p(), r as int) == r as int,
{
    let mut cur: usize = x;
    while ses.uf.parents[cur] != cur
        invariant
            ses.wf(),
            cur < ses.len(),
            root_of(ses.p(), cur as int) == root_of(ses.p(), x as int),
        decreases cur,
    {
        cur = ses.uf.parents[cur];
    }
    proof {
        crate::uf::lemma_root_idem(ses.p(), x as int);
        crate::uf::lemma_root_bounds(ses.p(), x as int);
    }
    cur
}

/// Runs the whole pipeline on one parsed expression: insert, saturate under
/// the default rules up to `max_iters` rounds, then extract up to
/// `nbest_count` distinct candidates (weight in thousandths) and export the
/// graph snapshot. The controller ends Converged exactly when its last round
/// applied no mutation, runs at most `max_iters` rounds, and every earlier
/// round applied at least one; no two candidates render the same text.
pub fn run_optimization(expr: &Expr, max_iters: usize, lambda: u64, nbest_count: usize) -> (r:
    RunOutput)
    requires
        expr.wf(),
        expr.len() >= 1,
        max_iters >= 1,
        lambda <= 0x1_0000_0000,
    ensures
        r.state is Converged || r.state is IterationCapReached,
        1 <= r.rounds@.len() <= max_iters,
        (r.state is Converged) <==> r.rounds@[r.rounds@.len() - 1] == 0,
        (r.state is IterationCapReached) ==> r.rounds@.len() == max_iters,
        forall|i: int| 0 <= i < r.rounds@.len() - 1 ==> #[trigger] r.rounds@[i] > 0,
        r.rounds@.len() < max_iters ==> r.rounds@[r.rounds@.len() - 1] == 0,
        r.nbest@.len() <= nbest_count,
        forall|i: int, j: int|
            0 <= i < j < r.nbest@.len() ==> (#[trigger] r.nbest@[i].expr)@ != (
            #[trigger] r.nbest@[j].expr)@,
        r.nbest@.len() >= 1 ==> r.nbest@[0].name@ == "size"@ && r.nbest@[0].lambda == 0,
        forall|q: int|
            0 <= q < r.nbest@.len() ==> (#[trigger] r.nbest@[q]).coverage@.len() == expr.len(),
        forall|t: int|
            0 <= t < r.trace@.len() ==> 1 <= (#[trigger] r.trace@[t]).iter <= r.rounds@.len(),
{
    let mut ses = Ses::new();
    let ids = ses.insert_expr(expr);
    let root0 = ids[ids.len() - 1];
    let rules = default_rewrites();
    let outcome = run_saturation(&mut ses, &rules, max_iters);
    let state = outcome.0;
    let trace = outcome.1;
    let rounds = outcome.2;
    let root = root_ro(&ses, root0);
    let nbest = generate_candidates(&ses, root, lambda, nbest_count, expr);
    let graph = export_graph(&ses);
    RunOutput { graph, trace, nbest, state, rounds }
}

} // verus!
