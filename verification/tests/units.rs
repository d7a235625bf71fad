use witness_studio::ache::{AcheAnalysis, AcheVec};
use witness_studio::candidates::coverage_for;
use witness_studio::expr::Expr;
use witness_studio::extract::extract;
use witness_studio::pattern::{PNode, Pattern, Rule};
use witness_studio::saturate::{run_saturation, SatState};
use witness_studio::ses::Ses;
use witness_studio::uf::UnionFind;
use witness_studio::web::{asset, mime_for};

fn leaf(e: &mut Expr, name: &str) -> usize {
    e.push_node(String::from(name), Vec::new())
}

fn app(e: &mut Expr, name: &str, kids: Vec<usize>) -> usize {
    e.push_node(String::from(name), kids)
}

#[test]
fn union_find_idempotent_finds() {
    let mut uf = UnionFind::new();
    let a = uf.make();
    let b = uf.make();
    let c = uf.make();
    assert!(uf.union(a, b));
    assert!(!uf.union(b, a));
    assert!(uf.union(b, c));
    for x in [a, b, c] {
        let once = uf.find(x);
        let twice = uf.find(once);
        assert_eq!(once, twice);
    }
    assert_eq!(uf.find(a), uf.find(c));
}

#[test]
fn ache_max_merge_elementwise() {
    let a = AcheVec { vals: vec![70, 10] };
    let b = AcheVec { vals: vec![20, 40, 5] };
    let m = AcheVec::max_merge(&a, &b);
    assert_eq!(m.vals, vec![70, 40, 5]);
    assert_eq!(m.sum(), 115);
}

#[test]
fn ache_profiles_and_merge_flag() {
    let mut d = AcheAnalysis::make("map");
    assert_eq!(d.ache.vals, vec![20, 40]);
    let other = AcheAnalysis::make("compose");
    assert_eq!(other.ache.vals, vec![70, 70]);
    let changed = AcheAnalysis::merge(&mut d, &other);
    assert!(changed);
    assert_eq!(d.ache.vals, vec![70, 70]);
    let same = AcheAnalysis::make("glyph");
    let mut g = AcheAnalysis::make("glyph");
    assert!(!AcheAnalysis::merge(&mut g, &same));
    let unknown = AcheAnalysis::make("mystery");
    assert_eq!(unknown.ache.vals, vec![0, 0]);
}

#[test]
fn saturation_hits_iteration_cap_on_growing_rule() {
    // (grow ?x) => (grow (step ?x)) builds a fresh chain every round, so the
    // loop can never reach a fixpoint.
    let lhs = Pattern {
        vars: vec![String::from("x")],
        nodes: vec![
            PNode::Var(0),
            PNode::App { op: String::from("grow"), children: vec![0] },
        ],
    };
    let rhs = Pattern {
        vars: vec![String::from("x")],
        nodes: vec![
            PNode::Var(0),
            PNode::App { op: String::from("step"), children: vec![0] },
            PNode::App { op: String::from("grow"), children: vec![1] },
        ],
    };
    let rules = vec![Rule { name: String::from("grow"), lhs, rhs }];
    let mut e = Expr::new();
    let a = leaf(&mut e, "a");
    let _root = app(&mut e, "grow", vec![a]);
    let mut ses = Ses::new();
    let _ids = ses.insert_expr(&e);
    let (state, _trace, rounds) = run_saturation(&mut ses, &rules, 4);
    assert!(matches!(state, SatState::IterationCapReached));
    assert_eq!(rounds.len(), 4);
    assert!(rounds.iter().all(|&r| r > 0));
}

#[test]
fn coverage_matches_inserted_classes() {
    let mut e = Expr::new();
    let x = leaf(&mut e, "x");
    let inner = app(&mut e, "normalize", vec![x]);
    let _root = app(&mut e, "normalize", vec![inner]);
    let mut ses = Ses::new();
    let ids = ses.insert_expr(&e);
    ses.rebuild();
    let cov = coverage_for(&ses, &e);
    assert_eq!(cov.len(), 3);
    for (i, c) in cov.iter().enumerate() {
        assert_eq!(c.ast, i);
        let canon = ses.find(ids[i]);
        assert_eq!(c.eclass, canon);
    }
}

#[test]
fn extraction_is_deterministic_on_fixed_graph() {
    let mut e = Expr::new();
    let f = leaf(&mut e, "f");
    let g = leaf(&mut e, "g");
    let x = leaf(&mut e, "x");
    let inner = app(&mut e, "map", vec![g, x]);
    let _root = app(&mut e, "map", vec![f, inner]);
    let mut ses = Ses::new();
    let ids = ses.insert_expr(&e);
    let rules = witness_studio::default_rewrites();
    let _ = run_saturation(&mut ses, &rules, 8);
    let root = ses.find(*ids.last().unwrap());
    let a = extract(&ses, root, 600).unwrap();
    let b = extract(&ses, root, 600).unwrap();
    assert_eq!(a.0, b.0);
    assert_eq!(a.1.nodes.len(), b.1.nodes.len());
    let ra = witness_studio::expr::render(&a.1, a.1.nodes.len() - 1);
    let rb = witness_studio::expr::render(&b.1, b.1.nodes.len() - 1);
    assert_eq!(ra, rb);
}

#[test]
fn size_metric_costs_are_scaled_sizes() {
    // a single leaf costs exactly one scaled unit under the size metric
    let mut e = Expr::new();
    let _x = leaf(&mut e, "x");
    let mut ses = Ses::new();
    let ids = ses.insert_expr(&e);
    ses.rebuild();
    let root = ses.find(ids[0]);
    let (cost, out) = extract(&ses, root, 0).unwrap();
    assert_eq!(cost, 100000);
    assert_eq!(witness_studio::expr::render(&out, out.nodes.len() - 1), "x");
}

#[test]
fn mime_type_selection() {
    assert_eq!(mime_for("app.js"), "application/javascript");
    assert_eq!(mime_for("style.css"), "text/css");
    assert_eq!(mime_for("graph.json"), "application/json");
    assert_eq!(mime_for("index.html"), "text/html");
    assert_eq!(mime_for("README"), "text/html");
}

#[test]
fn asset_lookup_and_normalization() {
    let files = vec![
        (String::from("index.html"), b"<html></html>".to_vec()),
        (String::from("viz.js"), b"code".to_vec()),
    ];
    let (bytes, mime) = asset(&files, "").unwrap();
    assert_eq!(bytes, b"<html></html>".to_vec());
    assert_eq!(mime, "text/html");
    let (_b2, mime2) = asset(&files, "/viz.js").unwrap();
    assert_eq!(mime2, "application/javascript");
    assert!(asset(&files, "/missing.css").is_none());
}
