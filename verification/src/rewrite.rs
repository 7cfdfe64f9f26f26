//! Rewriting the corpus with one invention; a rewritten subtree is kept only
//! where it has the size the search predicted for it.

use std::collections::HashMap;
use vstd::prelude::*;
use crate::expr::{cost_rec, Expr};
use crate::graph::ProgramGraph;
use crate::invention::{AppLam, BestInventions, Invention};
use crate::beta::steps_keep_meaning;
use crate::expand::{expanded, law_rewrite_expands, prim_unused};
use crate::inversion::{node_result_ok, search_done, search_result, views_hold};
use crate::lambda::{symbol_from_str, term_cost, Id, Lambda, Term};

verus! {

broadcast use vstd::std_specs::hash::group_hash_axioms;

/// Some applam of `applams` is for `inv`.
pub open spec fn has_applam_for(applams: Seq<AppLam>, inv: Invention) -> bool {
    exists|i: int| 0 <= i < applams.len() && (#[trigger] applams[i]).inv == inv
}

/// At most one applam of `applams` is for `inv`.
pub open spec fn applam_unique(applams: Seq<AppLam>, inv: Invention) -> bool {
    forall|i: int, j: int|
        0 <= i < applams.len() && 0 <= j < applams.len() && (#[trigger] applams[i]).inv == inv
            && (#[trigger] applams[j]).inv == inv ==> i == j
}

/// `head` applied to `args`, the last argument innermost:
/// `(app (app head args[n-1]) ... args[0])`.
pub open spec fn apply_args(head: Term, args: Seq<Term>) -> Term
    decreases args.len(),
{
    if args.len() == 0 {
        head
    } else {
        Term::App(Box::new(apply_args(head, args.drop_first())), Box::new(args[0]))
    }
}

/// Every entry is present.
pub open spec fn all_some(ts: Seq<Option<Term>>) -> bool {
    forall|j: int| 0 <= j < ts.len() ==> #[trigger] ts[j] is Some
}

/// The entries, each taken out of its `Some`.
pub open spec fn unwrap_all(ts: Seq<Option<Term>>) -> Seq<Term> {
    ts.map_values(|o: Option<Term>| o->0)
}

/// The tree of node `root` rewritten to use `inv` (written as the primitive
/// `prim`): where the search recorded a cost for `inv` at a node and an applam
/// for `inv` exists there, the node becomes `prim` applied to the rewritten
/// arguments of that applam; elsewhere the node keeps its operator over
/// rewritten children. `None` where a node has several applams for `inv`, or
/// where a rewritten subtree does not have the cost the search recorded for
/// it under `inv`.
pub open spec fn rewritten(
    root: Id,
    inv: Invention,
    prim: egg::Symbol,
    amap: Map<Id, Vec<AppLam>>,
    bmap: Map<Id, BestInventions>,
    g: ProgramGraph,
) -> Option<Term>
    decreases root, 2int,
{
    if !(amap.contains_key(root) && bmap.contains_key(root) && root < g.nodes().len()) {
        None
    } else {
        let applams = amap[root]@;
        let best = bmap[root];
        cost_checked(
            if best.inventionful_cost@.contains_key(inv) && has_applam_for(applams, inv) {
                if !applam_unique(applams, inv) {
                    None
                } else {
                    let a = applams[choose|i: int| 0 <= i < applams.len() && (#[trigger] applams[i]).inv == inv];
                    applied(prim, rewritten_below(a.args@, root, inv, prim, amap, bmap, g))
                }
            } else {
                node_rewritten(root, inv, prim, amap, bmap, g)
            },
            best.spec_cost_under_inv(inv),
        )
    }
}

/// Node `root` with its operator kept and its children rewritten.
pub open spec fn node_rewritten(
    root: Id,
    inv: Invention,
    prim: egg::Symbol,
    amap: Map<Id, Vec<AppLam>>,
    bmap: Map<Id, BestInventions>,
    g: ProgramGraph,
) -> Option<Term>
    decreases root, 1int,
{
    if root < g.nodes().len() {
        match g.nodes()[root as int] {
            Lambda::Var(i) => Some(Term::Var(i)),
            Lambda::Prim(p) => Some(Term::Prim(p)),
            Lambda::App(f, x) => if f < root && x < root {
                match (rewritten(f, inv, prim, amap, bmap, g), rewritten(x, inv, prim, amap, bmap, g)) {
                    (Some(tf), Some(tx)) => Some(Term::App(Box::new(tf), Box::new(tx))),
                    _ => None,
                }
            } else {
                None
            },
            Lambda::Lam(b) => if b < root {
                match rewritten(b, inv, prim, amap, bmap, g) {
                    Some(tb) => Some(Term::Lam(Box::new(tb))),
                    None => None,
                }
            } else {
                None
            },
            Lambda::Programs(ps) => {
                let rs = rewritten_below(ps@, root, inv, prim, amap, bmap, g);
                if all_some(rs) {
                    Some(Term::Programs(unwrap_all(rs)))
                } else {
                    None
                }
            },
        }
    } else {
        None
    }
}

/// The rewritten trees of `ids`, each `None` unless it lies below `root`.
pub open spec fn rewritten_below(
    ids: Seq<Id>,
    root: Id,
    inv: Invention,
    prim: egg::Symbol,
    amap: Map<Id, Vec<AppLam>>,
    bmap: Map<Id, BestInventions>,
    g: ProgramGraph,
) -> Seq<Option<Term>>
    decreases root, 0int,
{
    Seq::new(ids.len(), |j: int| if ids[j] < root { rewritten(ids[j], inv, prim, amap, bmap, g) } else { None })
}

/// `prim` applied to the trees `rs`, if all are present.
pub open spec fn applied(prim: egg::Symbol, rs: Seq<Option<Term>>) -> Option<Term> {
    if all_some(rs) {
        Some(apply_args(Term::Prim(prim), unwrap_all(rs)))
    } else {
        None
    }
}

/// `t`, kept only where its cost is `cost`.
pub open spec fn cost_checked(t: Option<Term>, cost: i32) -> Option<Term> {
    match t {
        Some(x) => if term_cost(x) == cost {
            Some(x)
        } else {
            None
        },
        None => None,
    }
}

/// Two of the first `n` applams are for `inv`.
pub open spec fn pair_before(applams: Seq<AppLam>, inv: Invention, n: int) -> bool {
    exists|j: int, k: int| 0 <= j < k < n && (#[trigger] applams[j]).inv == inv && (#[trigger] applams[k]).inv == inv
}

/// The first applam of `applams` for `inv`, and whether another one follows.
fn applam_for(applams: &Vec<AppLam>, inv: &Invention) -> (r: (Option<usize>, bool))
    ensures
        r.0 matches Some(i) ==> i < applams@.len() && applams@[i as int].inv == *inv,
        r.0 is None <==> !has_applam_for(applams@, *inv),
        r.0 is Some ==> (r.1 <==> !applam_unique(applams@, *inv)),
{
    let mut first: Option<usize> = None;
    let mut another = false;
    let mut i: usize = 0;
    while i < applams.len()
        invariant
            i <= applams@.len(),
            first matches Some(f) ==> f < i && applams@[f as int].inv == *inv,
            first is None <==> forall|j: int| 0 <= j < i ==> (#[trigger] applams@[j]).inv != *inv,
            first is Some ==> (another <==> pair_before(applams@, *inv, i as int)),
            first is None ==> !another,
        decreases applams@.len() - i,
    {
        let ghost pairs_before = pair_before(applams@, *inv, i as int);
        let ghost pairs_after = pair_before(applams@, *inv, i + 1);
        if applams[i].inv == *inv {
            match first {
                None => {
                    first = Some(i);
                    assert(!pairs_after) by {
                        if pairs_after {
                            let (j, k) = choose|j: int, k: int|
                                0 <= j < k < i + 1 && (#[trigger] applams@[j]).inv == *inv && (#[trigger] applams@[k]).inv == *inv;
                            assert(applams@[j].inv != *inv);
                        }
                    }
                },
                Some(f) => {
                    assert(applams@[f as int].inv == *inv);
                    assert(pairs_after) by {
                        assert(0 <= f < i && applams@[f as int].inv == *inv && applams@[i as int].inv == *inv);
                    }
                    another = true;
                },
            }
        } else {
            assert(pairs_before == pairs_after) by {
                if pairs_after {
                    let (j, k) = choose|j: int, k: int|
                        0 <= j < k < i + 1 && (#[trigger] applams@[j]).inv == *inv && (#[trigger] applams@[k]).inv == *inv;
                    assert(k < i);
                }
            }
        }
        i = i + 1;
    }
    proof {
        if first is None {
            assert forall|j: int| 0 <= j < applams@.len() implies (#[trigger] applams@[j]).inv != *inv by {}
        } else {
            let f = first->0;
            assert(has_applam_for(applams@, *inv)) by {
                assert(applams@[f as int].inv == *inv);
            }
            if another {
                let (j, k) = choose|j: int, k: int|
                    0 <= j < k < i && (#[trigger] applams@[j]).inv == *inv && (#[trigger] applams@[k]).inv == *inv;
                assert(!applam_unique(applams@, *inv));
            } else {
                assert forall|j: int, k: int|
                    0 <= j < applams@.len() && 0 <= k < applams@.len() && (#[trigger] applams@[j]).inv == *inv
                        && (#[trigger] applams@[k]).inv == *inv implies j == k by {
                    if j < k {
                        assert(pair_before(applams@, *inv, i as int));
                    } else if k < j {
                        assert(pair_before(applams@, *inv, i as int));
                    }
                }
            }
        }
    }
    (first, another)
}


/// What `extract_under_inv_rec` keeps of the expression it appends to:
/// nodes are only added at the end, so every earlier node, and its tree,
/// stays.
pub open spec fn appended(e0: Expr, e1: Expr) -> bool {
    &&& e1.wf()
    &&& e0.nodes@.len() <= e1.nodes@.len()
    &&& forall|i: int| 0 <= i < e0.nodes@.len() ==> #[trigger] e1.nodes@[i] == e0.nodes@[i]
    &&& forall|i: int| 0 <= i < e0.nodes@.len() ==> #[trigger] e1.term(i) == e0.term(i)
}

/// `r` is the position of the last node of `e`, whose tree is `t`, or both
/// are absent.
pub open spec fn result_is(r: Option<Id>, e: Expr, t: Option<Term>) -> bool {
    &&& (r is Some <==> t is Some)
    &&& r matches Some(id) ==> id + 1 == e.nodes@.len() && e.term(id as int) == t->0
}

/// Appends to `into_expr` the tree of node `root` rewritten to use `inv`,
/// written as the primitive `prim`, and returns its position; `None` exactly
/// where `rewritten` is `None`.
fn extract_under_inv_rec(
    root: Id,
    inv: Invention,
    prim: egg::Symbol,
    applams_of_treenode: &HashMap<Id, Vec<AppLam>>,
    best_inventions_of_treenode: &HashMap<Id, BestInventions>,
    egraph: &ProgramGraph,
    into_expr: &mut Expr,
    Ghost(var0): Ghost<Id>,
    Ghost(max_arity): Ghost<usize>,
) -> (r: Option<Id>)
    requires
        egraph.wf(),
        search_result(applams_of_treenode@, best_inventions_of_treenode@, var0, *egraph, max_arity),
        applams_of_treenode@.contains_key(root),
        old(into_expr).wf(),
    ensures
        appended(*old(into_expr), *final(into_expr)),
        result_is(r, *final(into_expr), rewritten(root, inv, prim, applams_of_treenode@, best_inventions_of_treenode@, *egraph)),
    decreases root, 2int,
{
    let ghost amap = applams_of_treenode@;
    let ghost bmap = best_inventions_of_treenode@;
    let ghost g = *egraph;
    proof {
        assert(node_result_ok(root, amap[root]@, bmap[root], var0, g, max_arity, amap.dom()));
        assert(bmap.contains_key(root));
    }
    let best = best_inventions_of_treenode.get(&root).unwrap();
    let applams = applams_of_treenode.get(&root).unwrap();
    let target_cost = best.cost_under_inv(&inv);

    if best.inventionful_cost.contains_key(&inv) {
        let (first, another) = applam_for(applams, &inv);
        if let Some(i) = first {
            if another {
                return None;
            }
            proof {
                let c = choose|c: int| 0 <= c < applams@.len() && (#[trigger] applams@[c]).inv == inv;
                assert(c == i);
                assert(inv.body != var0);
                assert(i != 0);
                assert(crate::inversion::applam_ok(applams@[i as int], g.nodes().len(), max_arity, amap.dom()));
                assert forall|j: int| 0 <= j < applams@[i as int].args@.len() implies
                    #[trigger] applams@[i as int].args@[j] < root && amap.contains_key(applams@[i as int].args@[j]) by {
                    assert(applams@[i as int].args@[j] < root);
                }
            }
            let id = match extract_applied(&applams[i].args, root, inv, prim, applams_of_treenode, best_inventions_of_treenode, egraph, into_expr, Ghost(var0), Ghost(max_arity)) {
                Some(id) => id,
                None => return None,
            };
            if target_cost != cost_rec(into_expr) {
                return None;
            }
            return Some(id);
        }
    }
    let id = match extract_node(root, inv, prim, applams_of_treenode, best_inventions_of_treenode, egraph, into_expr, Ghost(var0), Ghost(max_arity)) {
        Some(id) => id,
        None => return None,
    };
    if target_cost != cost_rec(into_expr) {
        return None;
    }
    Some(id)
}

/// Appends `prim` applied to the rewritten trees of `args`, the last
/// argument innermost.
fn extract_applied(
    args: &Vec<Id>,
    root: Id,
    inv: Invention,
    prim: egg::Symbol,
    applams_of_treenode: &HashMap<Id, Vec<AppLam>>,
    best_inventions_of_treenode: &HashMap<Id, BestInventions>,
    egraph: &ProgramGraph,
    into_expr: &mut Expr,
    Ghost(var0): Ghost<Id>,
    Ghost(max_arity): Ghost<usize>,
) -> (r: Option<Id>)
    requires
        egraph.wf(),
        search_result(applams_of_treenode@, best_inventions_of_treenode@, var0, *egraph, max_arity),
        forall|j: int| 0 <= j < args@.len() ==> #[trigger] args@[j] < root && applams_of_treenode@.contains_key(args@[j]),
        old(into_expr).wf(),
    ensures
        appended(*old(into_expr), *final(into_expr)),
        result_is(r, *final(into_expr), applied(prim, rewritten_below(args@, root, inv, prim, applams_of_treenode@, best_inventions_of_treenode@, *egraph))),
    decreases root, 1int,
{
    let ghost e0 = *into_expr;
    let ghost amap = applams_of_treenode@;
    let ghost bmap = best_inventions_of_treenode@;
    let ghost g = *egraph;
    let ghost n = args@.len();
    let ghost rs = rewritten_below(args@, root, inv, prim, amap, bmap, g);
    let mut id = into_expr.add(Lambda::Prim(prim));
    let mut k: usize = args.len();
    while k > 0
        invariant
            appended(e0, *into_expr),
            egraph.wf(),
            *egraph == g,
            search_result(amap, bmap, var0, g, max_arity),
            applams_of_treenode@ == amap,
            best_inventions_of_treenode@ == bmap,
            n == args@.len(),
            rs == rewritten_below(args@, root, inv, prim, amap, bmap, g),
            k <= n,
            forall|j: int| 0 <= j < n ==> #[trigger] args@[j] < root && amap.contains_key(args@[j]),
            forall|j: int| k <= j < n ==> #[trigger] rs[j] is Some,
            e0 == *old(into_expr),
            id + 1 == into_expr.nodes@.len(),
            into_expr.term(id as int) == apply_args(Term::Prim(prim), unwrap_all(rs).subrange(k as int, n as int)),
        decreases k,
    {
        k = k - 1;
        assert(args@[k as int] < root && amap.contains_key(args@[k as int]));
        let ghost e1 = *into_expr;
        let arg_id = match extract_under_inv_rec(args[k], inv, prim, applams_of_treenode, best_inventions_of_treenode, egraph, into_expr, Ghost(var0), Ghost(max_arity)) {
            Some(a) => a,
            None => {
                proof {
                    assert(rs[k as int] is None);
                    assert(!all_some(rs));
                }
                return None;
            },
        };
        let ghost prev = into_expr.term(id as int);
        proof {
            assert(prev == e1.term(id as int));
            assert(rs[k as int] == rewritten(args@[k as int], inv, prim, amap, bmap, g));
            assert(into_expr.term(arg_id as int) == rs[k as int]->0);
        }
        let ghost tail = unwrap_all(rs).subrange(k as int, n as int);
        let ghost e2 = *into_expr;
        let ghost old_id = id;
        id = into_expr.add(Lambda::App(id, arg_id));
        proof {
            assert(tail.drop_first() =~= unwrap_all(rs).subrange(k + 1, n as int));
            assert(tail[0] == rs[k as int]->0);
            assert(into_expr.term(arg_id as int) == e2.term(arg_id as int));
            assert(into_expr.term(old_id as int) == e2.term(old_id as int));
            assert(into_expr.nodes@[id as int] == Lambda::App(old_id, arg_id));
            assert(into_expr.term(id as int) == Term::App(Box::new(prev), Box::new(rs[k as int]->0)));
        }
    }
    proof {
        assert(all_some(rs));
        assert(unwrap_all(rs).subrange(0, n as int) =~= unwrap_all(rs));
    }
    Some(id)
}

/// Appends node `root` with its operator kept and its children rewritten.
fn extract_node(
    root: Id,
    inv: Invention,
    prim: egg::Symbol,
    applams_of_treenode: &HashMap<Id, Vec<AppLam>>,
    best_inventions_of_treenode: &HashMap<Id, BestInventions>,
    egraph: &ProgramGraph,
    into_expr: &mut Expr,
    Ghost(var0): Ghost<Id>,
    Ghost(max_arity): Ghost<usize>,
) -> (r: Option<Id>)
    requires
        egraph.wf(),
        search_result(applams_of_treenode@, best_inventions_of_treenode@, var0, *egraph, max_arity),
        applams_of_treenode@.contains_key(root),
        old(into_expr).wf(),
    ensures
        appended(*old(into_expr), *final(into_expr)),
        result_is(r, *final(into_expr), node_rewritten(root, inv, prim, applams_of_treenode@, best_inventions_of_treenode@, *egraph)),
    decreases root, 1int,
{
    let ghost amap = applams_of_treenode@;
    let ghost bmap = best_inventions_of_treenode@;
    let ghost g = *egraph;
    proof {
        egraph.lemma_wf();
    }
    match egraph.node(root) {
        Lambda::Prim(p) => Some(into_expr.add(Lambda::Prim(*p))),
        Lambda::Var(i) => Some(into_expr.add(Lambda::Var(*i))),
        Lambda::App(f, x) => {
            assert(g.nodes()[root as int].children()[0] == *f && g.nodes()[root as int].children()[1] == *x);
            let f_id = match extract_under_inv_rec(*f, inv, prim, applams_of_treenode, best_inventions_of_treenode, egraph, into_expr, Ghost(var0), Ghost(max_arity)) {
                Some(a) => a,
                None => return None,
            };
            let ghost e2 = *into_expr;
            let x_id = match extract_under_inv_rec(*x, inv, prim, applams_of_treenode, best_inventions_of_treenode, egraph, into_expr, Ghost(var0), Ghost(max_arity)) {
                Some(a) => a,
                None => return None,
            };
            let ghost e3 = *into_expr;
            assert(into_expr.term(f_id as int) == e2.term(f_id as int));
            let id = into_expr.add(Lambda::App(f_id, x_id));
            proof {
                assert(into_expr.term(f_id as int) == e3.term(f_id as int));
                assert(into_expr.term(x_id as int) == e3.term(x_id as int));
                assert(into_expr.nodes@[id as int] == Lambda::App(f_id, x_id));
            }
            Some(id)
        },
        Lambda::Lam(b) => {
            assert(g.nodes()[root as int].children()[0] == *b);
            let b_id = match extract_under_inv_rec(*b, inv, prim, applams_of_treenode, best_inventions_of_treenode, egraph, into_expr, Ghost(var0), Ghost(max_arity)) {
                Some(a) => a,
                None => return None,
            };
            let ghost e3 = *into_expr;
            let id = into_expr.add(Lambda::Lam(b_id));
            proof {
                assert(into_expr.term(b_id as int) == e3.term(b_id as int));
                assert(into_expr.nodes@[id as int] == Lambda::Lam(b_id));
            }
            Some(id)
        },
        Lambda::Programs(roots) => {
            let ghost e1 = *into_expr;
            let ghost rs = rewritten_below(roots@, root, inv, prim, amap, bmap, g);
            let mut root_ids: Vec<Id> = Vec::new();
            let mut k: usize = 0;
            while k < roots.len()
                invariant
                    appended(e1, *into_expr),
                    egraph.wf(),
                    *egraph == g,
                    search_result(amap, bmap, var0, g, max_arity),
                    applams_of_treenode@ == amap,
                    best_inventions_of_treenode@ == bmap,
                    amap.contains_key(root),
                    root < g.nodes().len(),
                    g.nodes()[root as int] == Lambda::Programs(*roots),
                    rs == rewritten_below(roots@, root, inv, prim, amap, bmap, g),
                    k <= roots@.len(),
                    root_ids@.len() == k,
                    forall|j: int| 0 <= j < k ==> #[trigger] root_ids@[j] < into_expr.nodes@.len(),
                    forall|j: int| 0 <= j < k ==> #[trigger] rs[j] is Some,
                    forall|j: int| 0 <= j < k ==> into_expr.term(#[trigger] root_ids@[j] as int) == rs[j]->0,
                    e1 == *old(into_expr),
                decreases roots@.len() - k,
            {
                proof {
                    egraph.lemma_wf();
                    assert(g.nodes()[root as int].children()[k as int] < root);
                    assert(amap.contains_key(g.nodes()[root as int].children()[k as int]));
                }
                let ghost e2 = *into_expr;
                let r = match extract_under_inv_rec(roots[k], inv, prim, applams_of_treenode, best_inventions_of_treenode, egraph, into_expr, Ghost(var0), Ghost(max_arity)) {
                    Some(a) => a,
                    None => {
                        proof {
                            assert(rs[k as int] is None);
                            assert(!all_some(rs));
                        }
                        return None;
                    },
                };
                proof {
                    assert forall|j: int| 0 <= j < k implies into_expr.term(#[trigger] root_ids@[j] as int) == rs[j]->0 by {
                        assert(into_expr.term(root_ids@[j] as int) == e2.term(root_ids@[j] as int));
                    }
                }
                root_ids.push(r);
                k = k + 1;
            }
            proof {
                assert(all_some(rs));
            }
            let ghost ids = root_ids@;
            let ghost e3 = *into_expr;
            let id = into_expr.add(Lambda::Programs(root_ids));
            proof {
                let nodes = into_expr.nodes@;
                assert forall|j: int| 0 <= j < ids.len() implies crate::lambda::term_of(nodes, #[trigger] ids[j] as int) == rs[j]->0 by {
                    assert(into_expr.term(ids[j] as int) == e3.term(ids[j] as int));
                }
                assert(nodes[id as int].children() == ids);
                match into_expr.term(id as int) {
                    Term::Programs(tt) => {
                        assert(tt.len() == ids.len());
                        assert forall|j: int| 0 <= j < tt.len() implies tt[j] == unwrap_all(rs)[j] by {
                            assert(tt[j] == crate::lambda::term_of(nodes, ids[j] as int));
                        }
                        assert(tt =~= unwrap_all(rs));
                    },
                    _ => {
                        assert(false);
                    },
                }
            }
            Some(id)
        },
    }
}

/// A rewritten tree has the cost the search recorded for its node under `inv`.
pub proof fn lemma_rewritten_cost(
    root: Id,
    inv: Invention,
    prim: egg::Symbol,
    amap: Map<Id, Vec<AppLam>>,
    bmap: Map<Id, BestInventions>,
    g: ProgramGraph,
)
    requires
        rewritten(root, inv, prim, amap, bmap, g) is Some,
    ensures
        bmap.contains_key(root),
        term_cost(rewritten(root, inv, prim, amap, bmap, g)->0) == bmap[root].spec_cost_under_inv(inv),
{
}

/// Rewriting with an invention that no table records at the root or at any
/// node stored before it (every node below the root is) gives back the tree
/// unchanged.
pub proof fn law_rewrite_without_invention(
    root: Id,
    inv: Invention,
    prim: egg::Symbol,
    amap: Map<Id, Vec<AppLam>>,
    bmap: Map<Id, BestInventions>,
    g: ProgramGraph,
    var0: Id,
    max_arity: usize,
)
    requires
        g.wf(),
        search_result(amap, bmap, var0, g, max_arity),
        amap.contains_key(root),
        forall|t: Id| #[trigger] bmap.contains_key(t) && t <= root ==> !bmap[t].inventionful_cost@.contains_key(inv),
    ensures
        rewritten(root, inv, prim, amap, bmap, g) == Some(g.term(root as int)),
    decreases root,
{
    g.lemma_wf();
    assert(node_result_ok(root, amap[root]@, bmap[root], var0, g, max_arity, amap.dom()));
    assert(bmap.contains_key(root));
    let n = g.nodes()[root as int];
    match n {
        Lambda::App(f, x) => {
            assert(n.children()[0] == f && n.children()[1] == x);
            assert(n.children()[0] < root && n.children()[1] < root);
            law_rewrite_without_invention(f, inv, prim, amap, bmap, g, var0, max_arity);
            law_rewrite_without_invention(x, inv, prim, amap, bmap, g, var0, max_arity);
        },
        Lambda::Lam(b) => {
            assert(n.children()[0] == b);
            assert(n.children()[0] < root);
            law_rewrite_without_invention(b, inv, prim, amap, bmap, g, var0, max_arity);
        },
        Lambda::Programs(ps) => {
            let rs = rewritten_below(ps@, root, inv, prim, amap, bmap, g);
            assert forall|j: int| 0 <= j < ps@.len() implies #[trigger] rs[j] == Some(g.term(ps@[j] as int)) by {
                assert(n.children()[j] == ps@[j]);
                assert(n.children()[j] < root);
                law_rewrite_without_invention(ps@[j], inv, prim, amap, bmap, g, var0, max_arity);
            }
            assert(all_some(rs));
            match g.term(root as int) {
                Term::Programs(ts) => {
                    assert(ts.len() == ps@.len());
                    assert forall|j: int| 0 <= j < ts.len() implies ts[j] == unwrap_all(rs)[j] by {
                        assert(n.children()[j] == ps@[j]);
                    }
                    assert(ts =~= unwrap_all(rs));
                },
                _ => {},
            }
        },
        _ => {},
    }
}

/// The corpus below node `eclass` rewritten to use the invention `inv`,
/// which appears as the new primitive `inv`; `None` where the rewrite meets a
/// node with several applams for `inv`, or a subtree whose size differs from
/// the size the search predicted for it.
pub fn extract_under_inv(
    eclass: Id,
    inv: Invention,
    applams_of_treenode: &HashMap<Id, Vec<AppLam>>,
    best_inventions_of_treenode: &HashMap<Id, BestInventions>,
    egraph: &ProgramGraph,
) -> (r: Option<Expr>)
    requires
        egraph.wf(),
        exists|max_arity: usize| #[trigger] search_done(applams_of_treenode@, best_inventions_of_treenode@, *egraph, max_arity),
        applams_of_treenode@.contains_key(eclass),
    ensures
        exists|prim: egg::Symbol| {
            let t = #[trigger] rewritten(eclass, inv, prim, applams_of_treenode@, best_inventions_of_treenode@, *egraph);
            &&& (r is Some <==> t is Some)
            &&& r matches Some(e) ==> e.wf() && e.nodes@.len() > 0 && e.root_term() == t->0
            &&& r matches Some(e) ==> forall|ma: usize|
                #![trigger steps_keep_meaning(applams_of_treenode@, *egraph, ma)]
                search_done(applams_of_treenode@, best_inventions_of_treenode@, *egraph, ma)
                    && views_hold(applams_of_treenode@, *egraph, ma)
                    && steps_keep_meaning(applams_of_treenode@, *egraph, ma) && prim_unused(*egraph, prim)
                    ==> expanded(e.root_term(), prim, egraph.term(inv.body as int), inv.arity as nat)
                        == egraph.term(eclass as int)
        },
        r matches Some(e) ==> term_cost(e.root_term()) == best_inventions_of_treenode@[eclass].spec_cost_under_inv(inv),
{
    let ghost max_arity = choose|max_arity: usize| #[trigger] search_done(applams_of_treenode@, best_inventions_of_treenode@, *egraph, max_arity);
    let ghost var0 = choose|var0: Id| #[trigger] search_result(applams_of_treenode@, best_inventions_of_treenode@, var0, *egraph, max_arity);
    let prim = symbol_from_str("inv");
    let mut expr = Expr::new();
    let r = extract_under_inv_rec(eclass, inv, prim, applams_of_treenode, best_inventions_of_treenode, egraph, &mut expr, Ghost(var0), Ghost(max_arity));
    proof {
        let t = rewritten(eclass, inv, prim, applams_of_treenode@, best_inventions_of_treenode@, *egraph);
        if t is Some {
            lemma_rewritten_cost(eclass, inv, prim, applams_of_treenode@, best_inventions_of_treenode@, *egraph);
            assert forall|ma: usize|
                #![trigger steps_keep_meaning(applams_of_treenode@, *egraph, ma)]
                search_done(applams_of_treenode@, best_inventions_of_treenode@, *egraph, ma)
                    && views_hold(applams_of_treenode@, *egraph, ma)
                    && steps_keep_meaning(applams_of_treenode@, *egraph, ma) && prim_unused(*egraph, prim)
                implies expanded(t->0, prim, egraph.term(inv.body as int), inv.arity as nat)
                    == egraph.term(eclass as int) by {
                let v0 = choose|v0: Id| #[trigger] search_result(applams_of_treenode@, best_inventions_of_treenode@, v0, *egraph, ma);
                law_rewrite_expands(eclass, inv, prim, applams_of_treenode@, best_inventions_of_treenode@, *egraph, ma, v0);
            }
        }
    }
    match r {
        Some(_) => Some(expr),
        None => None,
    }
}

} // verus!
