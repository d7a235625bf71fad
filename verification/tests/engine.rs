use witness_studio::expr::Expr;
use witness_studio::run_optimization;
use witness_studio::saturate::SatState;

fn leaf(e: &mut Expr, name: &str) -> usize {
    e.push_node(String::from(name), Vec::new())
}

fn app(e: &mut Expr, name: &str, kids: Vec<usize>) -> usize {
    e.push_node(String::from(name), kids)
}

#[test]
fn map_fusion_end_to_end() {
    // (map f (map g x))
    let mut e = Expr::new();
    let f = leaf(&mut e, "f");
    let g = leaf(&mut e, "g");
    let x = leaf(&mut e, "x");
    let inner = app(&mut e, "map", vec![g, x]);
    let _root = app(&mut e, "map", vec![f, inner]);
    let out = run_optimization(&e, 8, 600, 3);
    assert!(!out.nbest.is_empty());
    assert_eq!(out.nbest[0].name, "size");
    assert_eq!(out.nbest[0].expr, "(map (compose f g) x)");
    let fusion_events_round_one: Vec<_> = out
        .trace
        .iter()
        .filter(|t| t.rewrite == "map-fusion" && t.iter == 1)
        .collect();
    assert_eq!(fusion_events_round_one.len(), 1);
}

#[test]
fn filter_fusion_end_to_end() {
    // (filter p (filter q x))
    let mut e = Expr::new();
    let p = leaf(&mut e, "p");
    let q = leaf(&mut e, "q");
    let x = leaf(&mut e, "x");
    let inner = app(&mut e, "filter", vec![q, x]);
    let _root = app(&mut e, "filter", vec![p, inner]);
    let out = run_optimization(&e, 8, 600, 3);
    assert!(!out.nbest.is_empty());
    assert_eq!(out.nbest[0].expr, "(filter (and p q) x)");
}

#[test]
fn normalize_idempotence_end_to_end() {
    // (normalize (normalize x))
    let mut e = Expr::new();
    let x = leaf(&mut e, "x");
    let inner = app(&mut e, "normalize", vec![x]);
    let _root = app(&mut e, "normalize", vec![inner]);
    let out = run_optimization(&e, 8, 600, 3);
    assert!(!out.nbest.is_empty());
    assert_eq!(out.nbest[0].expr, "(normalize x)");
    assert!(matches!(out.state, SatState::Converged));
    assert!(out.rounds.len() < 8);
    assert_eq!(*out.rounds.last().unwrap(), 0);
}

#[test]
fn candidate_texts_are_unique() {
    let mut e = Expr::new();
    let f = leaf(&mut e, "f");
    let g = leaf(&mut e, "g");
    let x = leaf(&mut e, "x");
    let inner = app(&mut e, "map", vec![g, x]);
    let _root = app(&mut e, "map", vec![f, inner]);
    let out = run_optimization(&e, 8, 600, 4);
    for i in 0..out.nbest.len() {
        for j in 0..out.nbest.len() {
            if i != j {
                assert_ne!(out.nbest[i].expr, out.nbest[j].expr);
            }
        }
    }
}

#[test]
fn repeated_runs_are_identical() {
    let mut e = Expr::new();
    let f = leaf(&mut e, "f");
    let g = leaf(&mut e, "g");
    let x = leaf(&mut e, "x");
    let inner = app(&mut e, "map", vec![g, x]);
    let _root = app(&mut e, "map", vec![f, inner]);
    let a = run_optimization(&e, 8, 600, 3);
    let b = run_optimization(&e, 8, 600, 3);
    assert_eq!(a.nbest.len(), b.nbest.len());
    for (ca, cb) in a.nbest.iter().zip(b.nbest.iter()) {
        assert_eq!(ca.expr, cb.expr);
        assert_eq!(ca.cost, cb.cost);
        assert_eq!(ca.lambda, cb.lambda);
    }
}

#[test]
fn graph_export_shape() {
    let mut e = Expr::new();
    let x = leaf(&mut e, "x");
    let _root = app(&mut e, "normalize", vec![x]);
    let out = run_optimization(&e, 4, 600, 2);
    assert!(!out.graph.nodes.is_empty());
    for l in &out.graph.links {
        assert_eq!(l.iter, 0);
        assert!(out.graph.nodes.iter().any(|n| n.id == l.source));
    }
}
