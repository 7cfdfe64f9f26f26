//! Expanding an invention again: every use of its primitive, applied to as
//! many arguments as the invention takes, replaced by the invention's body
//! with those arguments substituted. Expanding a rewritten corpus gives the
//! corpus back.

use vstd::prelude::*;
use crate::beta::{applam_term, arg_terms, filled, law_applams_stand_for_their_nodes, steps_keep_meaning};
use crate::graph::ProgramGraph;
use crate::invention::{AppLam, BestInventions, Invention};
use crate::inversion::{avoids, node_result_ok, search_result, views_hold};
use crate::lambda::{Id, Lambda, Term};
use crate::rewrite::{
    all_some, applam_unique, applied, apply_args, has_applam_for, node_rewritten, rewritten, rewritten_below,
    unwrap_all,
};

verus! {

/// The arguments of `t` when it is the primitive `prim` applied to exactly
/// `n` arguments (the last innermost, as `apply_args` builds them).
pub open spec fn prim_args(t: Term, prim: egg::Symbol, n: nat) -> Option<Seq<Term>>
    decreases n,
{
    if n == 0 {
        if t == Term::Prim(prim) {
            Some(Seq::empty())
        } else {
            None
        }
    } else {
        match t {
            Term::App(h, a) => match prim_args(*h, prim, (n - 1) as nat) {
                Some(s) => Some(seq![*a] + s),
                None => None,
            },
            _ => None,
        }
    }
}

/// The arguments found by `prim_args` lie inside `t`.
pub proof fn lemma_prim_args_smaller(t: Term, prim: egg::Symbol, n: nat, k: int)
    requires
        prim_args(t, prim, n) is Some,
        0 <= k < prim_args(t, prim, n)->0.len(),
    ensures
        decreases_to!(t => prim_args(t, prim, n)->0[k]),
    decreases n,
{
    if let Term::App(h, a) = t {
        if k > 0 {
            lemma_prim_args_smaller(*h, prim, (n - 1) as nat, k - 1);
            assert(decreases_to!(t => *h));
        }
    }
}

/// `t` with every use of `prim` applied to `n` arguments replaced by
/// `body` with the expanded arguments substituted.
pub open spec fn expanded(t: Term, prim: egg::Symbol, body: Term, n: nat) -> Term
    decreases t, 1int,
{
    match prim_args(t, prim, n) {
        Some(_) => filled(body, expanded_args(t, prim, body, n)),
        None => match t {
            Term::App(f, x) => Term::App(Box::new(expanded(*f, prim, body, n)), Box::new(expanded(*x, prim, body, n))),
            Term::Lam(b) => Term::Lam(Box::new(expanded(*b, prim, body, n))),
            Term::Programs(ts) => Term::Programs(expanded_each(ts, prim, body, n)),
            _ => t,
        },
    }
}

/// The expansions of the trees `ts`.
pub open spec fn expanded_each(ts: Seq<Term>, prim: egg::Symbol, body: Term, n: nat) -> Seq<Term>
    decreases ts, 0int,
{
    Seq::new(ts.len(), |k: int| if 0 <= k < ts.len() { expanded(ts[k], prim, body, n) } else { Term::Var(0) })
}

/// The expansions of the arguments that `prim_args` finds in `t`.
pub open spec fn expanded_args(t: Term, prim: egg::Symbol, body: Term, n: nat) -> Seq<Term>
    decreases t, 0int,
{
    match prim_args(t, prim, n) {
        Some(s) => Seq::new(
            s.len(),
            |k: int|
                if 0 <= k < s.len() {
                    proof {
                        lemma_prim_args_smaller(t, prim, n, k);
                    }
                    expanded(s[k], prim, body, n)
                } else {
                    Term::Var(0)
                },
        ),
        None => Seq::empty(),
    }
}

/// The primitive applied to arguments is found with all of them.
pub proof fn lemma_prim_args_apply(s: Seq<Term>, prim: egg::Symbol)
    ensures
        prim_args(apply_args(Term::Prim(prim), s), prim, s.len()) == Some(s),
    decreases s.len(),
{
    if s.len() > 0 {
        lemma_prim_args_apply(s.drop_first(), prim);
        assert(seq![s[0]] + s.drop_first() =~= s);
    }
}

/// The primitive applied to arguments is not found with fewer of them.
pub proof fn lemma_prim_args_short(s: Seq<Term>, prim: egg::Symbol, k: nat)
    requires
        k < s.len(),
    ensures
        prim_args(apply_args(Term::Prim(prim), s), prim, k) is None,
    decreases k,
{
    if k > 0 {
        lemma_prim_args_short(s.drop_first(), prim, (k - 1) as nat);
    }
}

/// No node of `g` is the primitive `prim` itself.
pub open spec fn prim_unused(g: ProgramGraph, prim: egg::Symbol) -> bool {
    forall|i: int| 0 <= i < g.nodes().len() ==> #[trigger] g.nodes()[i] != Lambda::Prim(prim)
}

/// Where the rewrite of node `root` uses the invention, it is the applam
/// for it, none other, whose arguments come before `root`.
proof fn lemma_rewrite_applam(
    root: Id,
    inv: Invention,
    amap: Map<Id, Vec<AppLam>>,
    bmap: Map<Id, BestInventions>,
    g: ProgramGraph,
    max_arity: usize,
    var0: Id,
) -> (i: int)
    requires
        search_result(amap, bmap, var0, g, max_arity),
        amap.contains_key(root),
        bmap[root].inventionful_cost@.contains_key(inv),
        has_applam_for(amap[root]@, inv),
    ensures
        0 < i < amap[root]@.len(),
        amap[root]@[i] == amap[root]@[choose|i: int| 0 <= i < amap[root]@.len() && (#[trigger] amap[root]@[i]).inv == inv],
        amap[root]@[i].inv == inv,
        amap[root]@[i].args@.len() == inv.arity,
        forall|j: int| 0 <= j < amap[root]@[i].args@.len() ==> #[trigger] amap[root]@[i].args@[j] < root,
{
    let v = amap[root]@;
    assert(node_result_ok(root, v, bmap[root], var0, g, max_arity, amap.dom()));
    let i = choose|i: int| 0 <= i < v.len() && (#[trigger] v[i]).inv == inv;
    assert(avoids(bmap[root], var0));
    assert(inv.body != var0);
    assert(i != 0);
    assert(crate::inversion::applam_ok(v[i], g.nodes().len(), max_arity, amap.dom()));
    i
}

/// A rewritten tree never holds the primitive applied to fewer arguments
/// than the invention takes.
pub proof fn lemma_rewritten_not_short(
    root: Id,
    inv: Invention,
    prim: egg::Symbol,
    amap: Map<Id, Vec<AppLam>>,
    bmap: Map<Id, BestInventions>,
    g: ProgramGraph,
    max_arity: usize,
    var0: Id,
    k: nat,
)
    requires
        g.wf(),
        search_result(amap, bmap, var0, g, max_arity),
        prim_unused(g, prim),
        rewritten(root, inv, prim, amap, bmap, g) is Some,
        k < inv.arity,
    ensures
        prim_args(rewritten(root, inv, prim, amap, bmap, g)->0, prim, k) is None,
    decreases root,
{
    g.lemma_wf();
    let r = rewritten(root, inv, prim, amap, bmap, g)->0;
    let applams = amap[root]@;
    let best = bmap[root];
    if best.inventionful_cost@.contains_key(inv) && has_applam_for(applams, inv) {
        let i = lemma_rewrite_applam(root, inv, amap, bmap, g, max_arity, var0);
        let a = applams[i];
        let rs = rewritten_below(a.args@, root, inv, prim, amap, bmap, g);
        assert(r == apply_args(Term::Prim(prim), unwrap_all(rs)));
        lemma_prim_args_short(unwrap_all(rs), prim, k);
    } else {
        let n = g.nodes()[root as int];
        match n {
            Lambda::App(f, x) => {
                assert(n.children()[0] < root && n.children()[1] < root);
                if k > 0 {
                    lemma_rewritten_not_short(f, inv, prim, amap, bmap, g, max_arity, var0, (k - 1) as nat);
                }
            },
            Lambda::Prim(p) => {
                assert(g.nodes()[root as int] != Lambda::Prim(prim));
            },
            _ => {},
        }
    }
}

/// Where the rewrite of node `c` exists, expanding the invention in it
/// gives back the tree of `c`.
pub open spec fn expands_back(
    c: Id,
    inv: Invention,
    prim: egg::Symbol,
    amap: Map<Id, Vec<AppLam>>,
    bmap: Map<Id, BestInventions>,
    g: ProgramGraph,
) -> bool {
    rewritten(c, inv, prim, amap, bmap, g) is Some ==> expanded(
        rewritten(c, inv, prim, amap, bmap, g)->0,
        prim,
        g.term(inv.body as int),
        inv.arity as nat,
    ) == g.term(c as int)
}

/// Where the rewrite of node `root` uses applam `i` of the node, it is the
/// primitive applied to the rewritten arguments of that applam.
proof fn lemma_applied_shape(
    root: Id,
    inv: Invention,
    prim: egg::Symbol,
    amap: Map<Id, Vec<AppLam>>,
    bmap: Map<Id, BestInventions>,
    g: ProgramGraph,
    i: int,
)
    requires
        amap.contains_key(root),
        bmap.contains_key(root),
        root < g.nodes().len(),
        bmap[root].inventionful_cost@.contains_key(inv),
        has_applam_for(amap[root]@, inv),
        0 <= i < amap[root]@.len(),
        amap[root]@[i] == amap[root]@[choose|i: int| 0 <= i < amap[root]@.len() && (#[trigger] amap[root]@[i]).inv == inv],
        rewritten(root, inv, prim, amap, bmap, g) is Some,
    ensures
        all_some(rewritten_below(amap[root]@[i].args@, root, inv, prim, amap, bmap, g)),
        rewritten(root, inv, prim, amap, bmap, g) == Some(
            apply_args(Term::Prim(prim), unwrap_all(rewritten_below(amap[root]@[i].args@, root, inv, prim, amap, bmap, g))),
        ),
{
    let applams = amap[root]@;
    assert(applam_unique(applams, inv));
    let rs = rewritten_below(applams[i].args@, root, inv, prim, amap, bmap, g);
    assert(applied(prim, rs) is Some);
}

/// Expanding the primitive applied to `s` gives back the node of an applam
/// whose argument trees are the expansions of `s`.
proof fn lemma_expand_applam(
    root: Id,
    inv: Invention,
    prim: egg::Symbol,
    amap: Map<Id, Vec<AppLam>>,
    bmap: Map<Id, BestInventions>,
    g: ProgramGraph,
    a: AppLam,
    s: Seq<Term>,
)
    requires
        rewritten(root, inv, prim, amap, bmap, g) == Some(apply_args(Term::Prim(prim), s)),
        s.len() == inv.arity,
        a.inv == inv,
        a.args@.len() == s.len(),
        forall|k: int|
            0 <= k < s.len() ==> #[trigger] expanded(s[k], prim, g.term(inv.body as int), inv.arity as nat)
                == g.term(a.args@[k] as int),
        applam_term(a, g) == g.term(root as int),
    ensures
        expands_back(root, inv, prim, amap, bmap, g),
{
    let n = inv.arity as nat;
    let body = g.term(inv.body as int);
    let t = apply_args(Term::Prim(prim), s);
    lemma_prim_args_apply(s, prim);
    assert(prim_args(t, prim, n) == Some(s));
    let es = expanded_args(t, prim, body, n);
    assert(es.len() == s.len());
    assert forall|k: int| 0 <= k < s.len() implies es[k] == arg_terms(a.args@, g)[k] by {
        assert(es[k] == expanded(s[k], prim, body, n));
        assert(expanded(s[k], prim, g.term(inv.body as int), inv.arity as nat) == g.term(a.args@[k] as int));
    }
    assert(es =~= arg_terms(a.args@, g));
    assert(expanded(t, prim, body, n) == applam_term(a, g));
}

/// `expands_back` at a node whose rewrite uses the invention.
#[verifier::rlimit(30)]
proof fn lemma_expand_at_applam(
    root: Id,
    inv: Invention,
    prim: egg::Symbol,
    amap: Map<Id, Vec<AppLam>>,
    bmap: Map<Id, BestInventions>,
    g: ProgramGraph,
    max_arity: usize,
    var0: Id,
)
    requires
        g.wf(),
        search_result(amap, bmap, var0, g, max_arity),
        views_hold(amap, g, max_arity),
        steps_keep_meaning(amap, g, max_arity),
        rewritten(root, inv, prim, amap, bmap, g) is Some,
        bmap[root].inventionful_cost@.contains_key(inv),
        has_applam_for(amap[root]@, inv),
        forall|c: Id| c < root ==> #[trigger] expands_back(c, inv, prim, amap, bmap, g),
    ensures
        expands_back(root, inv, prim, amap, bmap, g),
{
    let i = lemma_rewrite_applam(root, inv, amap, bmap, g, max_arity, var0);
    let a = amap[root]@[i];
    lemma_applied_shape(root, inv, prim, amap, bmap, g, i);
    let rs = rewritten_below(a.args@, root, inv, prim, amap, bmap, g);
    let s = unwrap_all(rs);
    assert forall|k: int| 0 <= k < s.len() implies #[trigger] expanded(s[k], prim, g.term(inv.body as int), inv.arity as nat)
        == g.term(a.args@[k] as int) by {
        assert(a.args@[k] < root);
        assert(rs[k] is Some);
        assert(expands_back(a.args@[k], inv, prim, amap, bmap, g));
    }
    law_applams_stand_for_their_nodes(amap, bmap, g, max_arity, var0);
    assert(applam_term(amap[root]@[i], g) == g.term(root as int));
    lemma_expand_applam(root, inv, prim, amap, bmap, g, a, s);
}

/// `expands_back` at a node whose rewrite keeps its operator.
proof fn lemma_expand_node(
    root: Id,
    inv: Invention,
    prim: egg::Symbol,
    amap: Map<Id, Vec<AppLam>>,
    bmap: Map<Id, BestInventions>,
    g: ProgramGraph,
    max_arity: usize,
    var0: Id,
)
    requires
        g.wf(),
        search_result(amap, bmap, var0, g, max_arity),
        prim_unused(g, prim),
        rewritten(root, inv, prim, amap, bmap, g) is Some,
        !(bmap[root].inventionful_cost@.contains_key(inv) && has_applam_for(amap[root]@, inv)),
        forall|c: Id| c < root ==> #[trigger] expands_back(c, inv, prim, amap, bmap, g),
    ensures
        expands_back(root, inv, prim, amap, bmap, g),
{
    g.lemma_wf();
    let n = inv.arity as nat;
    let body = g.term(inv.body as int);
    let nd = g.nodes()[root as int];
    match nd {
        Lambda::App(f, x) => {
            assert(nd.children()[0] == f && nd.children()[1] == x);
            assert(f < root && x < root);
            let r = rewritten(root, inv, prim, amap, bmap, g)->0;
            assert(node_rewritten(root, inv, prim, amap, bmap, g) == Some(r));
            assert(rewritten(f, inv, prim, amap, bmap, g) is Some);
            assert(rewritten(x, inv, prim, amap, bmap, g) is Some);
            let rf = rewritten(f, inv, prim, amap, bmap, g)->0;
            let rx = rewritten(x, inv, prim, amap, bmap, g)->0;
            assert(r == Term::App(Box::new(rf), Box::new(rx)));
            assert(expands_back(f, inv, prim, amap, bmap, g));
            assert(expands_back(x, inv, prim, amap, bmap, g));
            if n > 0 {
                lemma_rewritten_not_short(f, inv, prim, amap, bmap, g, max_arity, var0, (n - 1) as nat);
                assert(prim_args(rf, prim, (n - 1) as nat) is None);
            }
            assert(prim_args(r, prim, n) is None);
            assert(expanded(r, prim, body, n) == Term::App(Box::new(expanded(rf, prim, body, n)), Box::new(expanded(rx, prim, body, n))));
            assert(expanded(rf, prim, body, n) == g.term(f as int));
            assert(expanded(rx, prim, body, n) == g.term(x as int));
            assert(g.term(root as int) == Term::App(Box::new(g.term(f as int)), Box::new(g.term(x as int))));
            assert(expanded(r, prim, body, n) == g.term(root as int));
            assert(expanded(rewritten(root, inv, prim, amap, bmap, g)->0, prim, g.term(inv.body as int), inv.arity as nat) == g.term(root as int));
            assert(expands_back(root, inv, prim, amap, bmap, g));
        },
        Lambda::Lam(b) => {
            assert(nd.children()[0] == b);
            assert(expands_back(b, inv, prim, amap, bmap, g));
            assert(rewritten(b, inv, prim, amap, bmap, g) is Some);
            assert(expands_back(root, inv, prim, amap, bmap, g));
        },
        Lambda::Programs(ps) => {
            let rs = rewritten_below(ps@, root, inv, prim, amap, bmap, g);
            let ts = unwrap_all(rs);
            assert forall|k: int| 0 <= k < ts.len() implies expanded(ts[k], prim, body, n) == g.term(ps@[k] as int) by {
                assert(nd.children()[k] < root);
                assert(rs[k] is Some);
                assert(expands_back(ps@[k], inv, prim, amap, bmap, g));
            }
            if let Term::Programs(tt) = g.term(root as int) {
                assert(expanded_each(ts, prim, body, n) =~= tt);
            }
            assert(expands_back(root, inv, prim, amap, bmap, g));
        },
        Lambda::Prim(p) => {
            assert(g.nodes()[root as int] != Lambda::Prim(prim));
            assert(expands_back(root, inv, prim, amap, bmap, g));
        },
        Lambda::Var(v) => {
            assert(expands_back(root, inv, prim, amap, bmap, g));
        },
    }
}

/// Expanding the invention in the rewrite of node `root` gives back the
/// tree of `root`, where the search's steps keep meaning and the
/// invention's primitive is no primitive of the corpus.
pub proof fn law_rewrite_expands(
    root: Id,
    inv: Invention,
    prim: egg::Symbol,
    amap: Map<Id, Vec<AppLam>>,
    bmap: Map<Id, BestInventions>,
    g: ProgramGraph,
    max_arity: usize,
    var0: Id,
)
    requires
        g.wf(),
        search_result(amap, bmap, var0, g, max_arity),
        views_hold(amap, g, max_arity),
        steps_keep_meaning(amap, g, max_arity),
        prim_unused(g, prim),
        rewritten(root, inv, prim, amap, bmap, g) is Some,
    ensures
        expanded(rewritten(root, inv, prim, amap, bmap, g)->0, prim, g.term(inv.body as int), inv.arity as nat)
            == g.term(root as int),
    decreases root,
{
    assert forall|c: Id| c < root implies #[trigger] expands_back(c, inv, prim, amap, bmap, g) by {
        if rewritten(c, inv, prim, amap, bmap, g) is Some {
            law_rewrite_expands(c, inv, prim, amap, bmap, g, max_arity, var0);
        }
    }
    if bmap[root].inventionful_cost@.contains_key(inv) && has_applam_for(amap[root]@, inv) {
        lemma_expand_at_applam(root, inv, prim, amap, bmap, g, max_arity, var0);
    } else {
        lemma_expand_node(root, inv, prim, amap, bmap, g, max_arity, var0);
    }
}

} // verus!
