use dream_egg::expr::{cost_rec, Expr};
use dream_egg::graph::ProgramGraph;
use dream_egg::invention::{narrow_beam, BestInventions, Invention, InventionCosts};
use dream_egg::inversion::run_inversions;
use dream_egg::lambda::Lambda;
use dream_egg::order::{extract, toplogical_ordering};
use dream_egg::rewrite::extract_under_inv;
use dream_egg::shift::{shift, VarModCache};

fn sym(s: &str) -> egg::Symbol {
    egg::Symbol::from(s)
}

/// Two programs, (app f (app g a)) and (app f (app g b)), under one corpus node.
fn corpus() -> (ProgramGraph, usize) {
    let mut g = ProgramGraph::new();
    let f = g.add(Lambda::Prim(sym("f")));
    let gg = g.add(Lambda::Prim(sym("g")));
    let a = g.add(Lambda::Prim(sym("a")));
    let b = g.add(Lambda::Prim(sym("b")));
    let ga = g.add(Lambda::App(gg, a));
    let fga = g.add(Lambda::App(f, ga));
    let gb = g.add(Lambda::App(gg, b));
    let fgb = g.add(Lambda::App(f, gb));
    let progs = g.add(Lambda::Programs(vec![fga, fgb]));
    (g, progs)
}

#[test]
fn adding_a_node_twice_gives_the_same_id() {
    let mut g = ProgramGraph::new();
    let x = g.add(Lambda::Prim(sym("x")));
    let y = g.add(Lambda::Prim(sym("y")));
    let app1 = g.add(Lambda::App(x, y));
    let len = g.len();
    let app2 = g.add(Lambda::App(x, y));
    assert_eq!(app1, app2);
    assert_eq!(g.len(), len);
    assert_eq!(g.lookup(&Lambda::App(x, y)), Some(app1));
    assert_eq!(g.lookup(&Lambda::App(y, x)), None);
}

#[test]
fn inventionless_cost_counts_leaves_and_inner_nodes() {
    let (g, progs) = corpus();
    // each program: 1 + 100 + (1 + 100 + 100)
    assert_eq!(g.inventionless_cost(progs), 604);
    let e = extract(progs, &g);
    assert_eq!(cost_rec(&e), 604);
}

#[test]
fn upward_refs_drop_bound_variables() {
    let mut g = ProgramGraph::new();
    let v0 = g.add(Lambda::Var(0));
    let v2 = g.add(Lambda::Var(2));
    let app = g.add(Lambda::App(v0, v2));
    let lam = g.add(Lambda::Lam(app));
    let refs = g.upward_refs(lam);
    assert_eq!(refs.len(), 1);
    assert!(refs.contains(&1));
    assert!(g.upward_refs(app).contains(&0));
}

#[test]
fn topological_order_lists_children_first_and_root_last() {
    let (g, progs) = corpus();
    let order = toplogical_ordering(progs, &g);
    assert_eq!(*order.last().unwrap(), progs);
    assert_eq!(order.len(), 9);
    for (p, id) in order.iter().enumerate() {
        for c in g.node(*id).child_ids() {
            let q = order.iter().position(|x| *x == c).unwrap();
            assert!(q < p);
        }
        assert_eq!(order.iter().filter(|x| **x == *id).count(), 1);
    }
}

#[test]
fn shift_moves_free_variables_only() {
    let mut g = ProgramGraph::new();
    let v0 = g.add(Lambda::Var(0));
    let v1 = g.add(Lambda::Var(1));
    let app = g.add(Lambda::App(v0, v1));
    let lam = g.add(Lambda::Lam(app));
    let mut seen: VarModCache = std::collections::HashMap::new();
    let shifted = shift(lam, 2, &mut g, &mut seen).unwrap();
    // (lam (app $0 $1)) shifted by 2 is (lam (app $0 $3))
    let v3 = g.lookup(&Lambda::Var(3)).unwrap();
    let app2 = g.lookup(&Lambda::App(v0, v3)).unwrap();
    assert_eq!(g.lookup(&Lambda::Lam(app2)), Some(shifted));
    // a closed term is its own shift
    let x = g.add(Lambda::Prim(sym("x")));
    let mut seen2: VarModCache = std::collections::HashMap::new();
    assert_eq!(shift(x, 5, &mut g, &mut seen2), Some(x));
    let mut seen3: VarModCache = std::collections::HashMap::new();
    assert_eq!(shift(lam, 0, &mut g, &mut seen3), Some(lam));
}

#[test]
fn inline_substitutes_the_outer_binder() {
    let mut g = ProgramGraph::new();
    let v0 = g.add(Lambda::Var(0));
    let v1 = g.add(Lambda::Var(1));
    let body = g.add(Lambda::App(v0, v1));
    let c = g.add(Lambda::Prim(sym("c")));
    let mut seen: VarModCache = std::collections::HashMap::new();
    let r = dream_egg::shift::inline(body, c, &mut g, &mut seen).unwrap();
    // (app $0 $1) with $0 := c becomes (app c $0)
    assert_eq!(g.lookup(&Lambda::App(c, v0)), Some(r));
}

#[test]
fn best_inventions_keep_the_cheapest_cost_below_the_inventionless_one() {
    let mut best = BestInventions::new(50);
    let inv = Invention::new(3, 1);
    best.new_cost_under_inv(inv, 60);
    assert_eq!(best.cost_under_inv(&inv), 50);
    best.new_cost_under_inv(inv, 40);
    assert_eq!(best.cost_under_inv(&inv), 40);
    best.new_cost_under_inv(inv, 45);
    assert_eq!(best.cost_under_inv(&inv), 40);
    best.new_cost_under_inv(inv, 30);
    assert_eq!(best.cost_under_inv(&inv), 30);
    assert_eq!(best.cost_under_inv(&Invention::new(4, 1)), 50);
}

#[test]
fn top_inventions_come_cheapest_first() {
    let mut best = BestInventions::new(1000);
    best.new_cost_under_inv(Invention::new(1, 1), 30);
    best.new_cost_under_inv(Invention::new(2, 1), 10);
    best.new_cost_under_inv(Invention::new(3, 2), 20);
    let top = best.top_inventions();
    assert_eq!(top, vec![Invention::new(2, 1), Invention::new(3, 2), Invention::new(1, 1)]);
}

#[test]
fn narrow_beam_leaves_a_small_beam_alone() {
    let mut beam = InventionCosts::new();
    beam.insert(Invention::new(1, 1), 5);
    beam.insert(Invention::new(2, 1), 7);
    narrow_beam(&mut beam, 3);
    assert_eq!(beam.len(), 2);
    // at exactly the beam size nothing is dropped
    narrow_beam(&mut beam, 2);
    assert_eq!(beam.len(), 2);
    assert_eq!(beam.get(&Invention::new(1, 1)), Some(5));
}

#[test]
fn narrow_beam_keeps_the_cheapest() {
    let mut beam = InventionCosts::new();
    beam.insert(Invention::new(1, 1), 9);
    beam.insert(Invention::new(2, 1), 3);
    beam.insert(Invention::new(3, 1), 7);
    beam.insert(Invention::new(4, 1), 5);
    narrow_beam(&mut beam, 2);
    assert_eq!(beam.len(), 2);
    assert_eq!(beam.get(&Invention::new(2, 1)), Some(3));
    assert_eq!(beam.get(&Invention::new(4, 1)), Some(5));
    assert_eq!(beam.get(&Invention::new(1, 1)), None);
    assert_eq!(beam.get(&Invention::new(3, 1)), None);
}

#[test]
fn search_finds_the_shared_abstraction() {
    let (mut g, progs) = corpus();
    let order = toplogical_ordering(progs, &g);
    let (applams, best) = run_inversions(&order, 2, 10000000, &mut g);
    for id in order.iter() {
        assert!(applams.contains_key(id));
        assert!(best.contains_key(id));
        // the identity applam comes first
        assert_eq!(applams[id][0].args, vec![*id]);
        assert_eq!(best[id].inventionless_cost, g.inventionless_cost(*id));
    }
    let top = best[&progs].top_inventions();
    assert!(!top.is_empty());
    let inv = top[0];
    // (lam (app f (app g $0))) used twice: 2 * (100 + 1 + 100)
    assert_eq!(best[&progs].cost_under_inv(&inv), 402);
    assert_eq!(inv.arity, 1);
    let body = inv.to_expr(&g);
    assert_eq!(cost_rec(&body), 1 + 1 + 100 + 1 + 100 + 100);
    let rewritten = extract_under_inv(progs, inv, &applams, &best, &g).unwrap();
    assert_eq!(cost_rec(&rewritten), 402);
    // the invention appears as the new primitive `inv`, once per program
    let uses = rewritten
        .nodes
        .iter()
        .filter(|n| matches!(n, Lambda::Prim(p) if p.as_str() == "inv"))
        .count();
    assert_eq!(uses, 2);
}

#[test]
fn rewriting_with_an_unused_invention_keeps_the_corpus() {
    let (mut g, progs) = corpus();
    let order = toplogical_ordering(progs, &g);
    let (applams, best) = run_inversions(&order, 2, 10000000, &mut g);
    let unused = Invention::new(progs, 1);
    let e: Expr = extract_under_inv(progs, unused, &applams, &best, &g).unwrap();
    assert_eq!(cost_rec(&e), 604);
    assert_eq!(e.nodes.len(), 11);
}

/// The best invention's cost at the corpus, and the rewritten corpus's cost.
fn best_rewrite(mut g: ProgramGraph, progs: usize, max_arity: usize) -> (i32, i32, usize) {
    let order = toplogical_ordering(progs, &g);
    let (applams, best) = run_inversions(&order, max_arity, 10000000, &mut g);
    let top = best[&progs].top_inventions();
    let inv = top[0];
    let cost = best[&progs].cost_under_inv(&inv);
    let rewritten = extract_under_inv(progs, inv, &applams, &best, &g).unwrap();
    (cost, cost_rec(&rewritten), inv.arity)
}

#[test]
fn shared_arguments_are_merged() {
    // (app (app g a) a) and (app (app g b) b): the abstraction takes one
    // argument used twice
    let mut g = ProgramGraph::new();
    let gg = g.add(Lambda::Prim(sym("g")));
    let a = g.add(Lambda::Prim(sym("a")));
    let b = g.add(Lambda::Prim(sym("b")));
    let ga = g.add(Lambda::App(gg, a));
    let gaa = g.add(Lambda::App(ga, a));
    let gb = g.add(Lambda::App(gg, b));
    let gbb = g.add(Lambda::App(gb, b));
    let progs = g.add(Lambda::Programs(vec![gaa, gbb]));
    assert_eq!(g.inventionless_cost(progs), 604);
    let (cost, rewritten_cost, arity) = best_rewrite(g, progs, 2);
    assert_eq!(cost, 402);
    assert_eq!(rewritten_cost, 402);
    assert_eq!(arity, 1);
}

#[test]
fn applams_move_over_abstractions() {
    // (lam (app (app f $0) a)) and (lam (app (app f $0) b))
    let mut g = ProgramGraph::new();
    let f = g.add(Lambda::Prim(sym("f")));
    let v0 = g.add(Lambda::Var(0));
    let a = g.add(Lambda::Prim(sym("a")));
    let b = g.add(Lambda::Prim(sym("b")));
    let f0 = g.add(Lambda::App(f, v0));
    let f0a = g.add(Lambda::App(f0, a));
    let la = g.add(Lambda::Lam(f0a));
    let f0b = g.add(Lambda::App(f0, b));
    let lb = g.add(Lambda::Lam(f0b));
    let progs = g.add(Lambda::Programs(vec![la, lb]));
    assert_eq!(g.inventionless_cost(progs), 606);
    let (cost, rewritten_cost, arity) = best_rewrite(g, progs, 2);
    assert_eq!(cost, 402);
    assert_eq!(rewritten_cost, 402);
    assert_eq!(arity, 1);
}

/// (programs (app (app h k) f) (app (app h k) g)): the shared head with a
/// one-argument hole is the only invention kept at the corpus.
#[test]
fn search_tables_on_a_shared_head() {
    let mut g = ProgramGraph::new();
    let h = g.add(Lambda::Prim(sym("h")));
    let k = g.add(Lambda::Prim(sym("k")));
    let f = g.add(Lambda::Prim(sym("f")));
    let gg = g.add(Lambda::Prim(sym("g")));
    let hk = g.add(Lambda::App(h, k));
    let t1 = g.add(Lambda::App(hk, f));
    let t2 = g.add(Lambda::App(hk, gg));
    let progs = g.add(Lambda::Programs(vec![t1, t2]));
    let order = toplogical_ordering(progs, &g);
    let (_applams, best) = run_inversions(&order, 1, 10000000, &mut g);
    let v0 = g.lookup(&Lambda::Var(0)).unwrap();
    let hk0 = g.lookup(&Lambda::App(hk, v0)).unwrap();
    let b = Invention::new(hk0, 1);
    assert_eq!(best[&progs].inventionless_cost, 604);
    assert_eq!(best[&progs].inventionful_cost.len(), 1);
    assert_eq!(best[&progs].inventionful_cost.get(&b), Some(402));
    // at one program, each of its three leaves can be the hole
    let h0 = g.lookup(&Lambda::App(v0, k)).unwrap();
    let h0f = g.lookup(&Lambda::App(h0, f)).unwrap();
    let k0 = g.lookup(&Lambda::App(h, v0)).unwrap();
    let k0f = g.lookup(&Lambda::App(k0, f)).unwrap();
    assert_eq!(best[&t1].inventionless_cost, 302);
    assert_eq!(best[&t1].inventionful_cost.len(), 3);
    assert_eq!(best[&t1].inventionful_cost.get(&Invention::new(h0f, 1)), Some(201));
    assert_eq!(best[&t1].inventionful_cost.get(&Invention::new(k0f, 1)), Some(201));
    assert_eq!(best[&t1].inventionful_cost.get(&Invention::new(hk0, 1)), Some(201));
}

#[test]
fn the_beam_bounds_every_table() {
    let (mut g, progs) = corpus();
    let order = toplogical_ordering(progs, &g);
    let (_applams, narrow) = run_inversions(&order, 2, 1, &mut g);
    for id in order.iter() {
        assert!(narrow[id].inventionful_cost.len() <= 1);
        for inv in narrow[id].top_inventions() {
            assert!(narrow[id].cost_under_inv(&inv) < narrow[id].inventionless_cost);
        }
    }
    let (mut g0, progs0) = corpus();
    let order0 = toplogical_ordering(progs0, &g0);
    let (_applams0, none) = run_inversions(&order0, 2, 0, &mut g0);
    for id in order0.iter() {
        assert_eq!(none[id].inventionful_cost.len(), 0);
    }
}

#[test]
fn shifting_by_zero_adds_no_node() {
    let mut g = ProgramGraph::new();
    let v0 = g.add(Lambda::Var(0));
    let v1 = g.add(Lambda::Var(1));
    let app = g.add(Lambda::App(v0, v1));
    let lam = g.add(Lambda::Lam(app));
    let len = g.len();
    let mut seen: VarModCache = std::collections::HashMap::new();
    assert_eq!(shift(app, 0, &mut g, &mut seen), Some(app));
    assert_eq!(shift(lam, 0, &mut g, &mut seen2()), Some(lam));
    assert_eq!(g.len(), len);
}

fn seen2() -> VarModCache {
    std::collections::HashMap::new()
}

#[test]
fn shifting_twice_is_shifting_by_the_sum() {
    // (lam (app $0 $2)) shifted by 2 then 3 is the same node as shifted by 5
    let mut g = ProgramGraph::new();
    let v0 = g.add(Lambda::Var(0));
    let v2 = g.add(Lambda::Var(2));
    let app = g.add(Lambda::App(v0, v2));
    let lam = g.add(Lambda::Lam(app));
    let once = shift(lam, 2, &mut g, &mut seen2()).unwrap();
    let twice = shift(once, 3, &mut g, &mut seen2()).unwrap();
    let by_sum = shift(lam, 5, &mut g, &mut seen2()).unwrap();
    assert_eq!(twice, by_sum);
    let v7 = g.lookup(&Lambda::Var(7)).unwrap();
    let app7 = g.lookup(&Lambda::App(v0, v7)).unwrap();
    assert_eq!(g.lookup(&Lambda::Lam(app7)), Some(by_sum));
}

#[test]
fn an_abstraction_applied_directly_is_found() {
    let (g, _progs) = corpus();
    assert!(!g.has_applied_lambda());
    let mut g = ProgramGraph::new();
    let v0 = g.add(Lambda::Var(0));
    let lam = g.add(Lambda::Lam(v0));
    let a = g.add(Lambda::Prim(sym("a")));
    assert!(!g.has_applied_lambda());
    g.add(Lambda::App(lam, a));
    assert!(g.has_applied_lambda());
}

#[test]
fn a_parsed_expression_is_added_node_for_node() {
    // (programs (lam $0) (lam $0)): the shared abstraction is stored once.
    let e = Expr {
        nodes: vec![
            Lambda::Var(0),
            Lambda::Lam(0),
            Lambda::Var(0),
            Lambda::Lam(2),
            Lambda::Programs(vec![1, 3]),
        ],
    };
    let mut g = ProgramGraph::new();
    let root = g.add_expr(&e).expect("closed programs");
    assert_eq!(g.len(), 3);
    assert_eq!(root, 2);
    match g.node(root) {
        Lambda::Programs(ps) => assert_eq!(ps, &vec![1, 1]),
        other => panic!("unexpected root {:?}", other),
    }
}

#[test]
fn a_corpus_with_a_free_variable_is_refused() {
    let e = Expr { nodes: vec![Lambda::Var(1), Lambda::Lam(0), Lambda::Programs(vec![1])] };
    let mut g = ProgramGraph::new();
    assert!(g.add_expr(&e).is_none());
}

#[test]
fn an_applam_stands_for_its_node() {
    // at (app f (app g a)) the best invention's applam takes `a` as its
    // argument; its body is (app f (app g $0)), so substituting `a` for $0
    // gives the node back.
    let (mut g, progs) = corpus();
    let (f, gg, a, fga) = (0, 1, 2, 5);
    let order = toplogical_ordering(progs, &g);
    let (applams, best) = run_inversions(&order, 2, 10000000, &mut g);
    let inv = best[&progs].top_inventions()[0];
    let at_fga: Vec<_> = applams[&fga].iter().filter(|al| al.inv == inv).collect();
    assert_eq!(at_fga.len(), 1);
    assert_eq!(at_fga[0].args, vec![a]);
    let (head, arg) = match g.node(inv.body) {
        Lambda::App(h, x) => (*h, *x),
        other => panic!("unexpected body {:?}", other),
    };
    assert_eq!(head, f);
    match g.node(arg) {
        Lambda::App(h, x) => {
            assert_eq!(*h, gg);
            assert!(matches!(g.node(*x), Lambda::Var(0)));
        }
        other => panic!("unexpected body {:?}", other),
    }
}
