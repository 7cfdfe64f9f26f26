//! What the search's results promise about its nodes, stated over the
//! tables and applams it returns: the cost of an application under an
//! invention, which applams an application gains from its children's, and
//! which arguments may move over an abstraction.

use vstd::prelude::*;
use crate::beta::lemma_lam_views_member;
use crate::graph::ProgramGraph;
use crate::invention::{AppLam, BestInventions, Invention};
use crate::inversion::{
    app_views, applam_is, args_shared, best_table, child_candidate, child_keys, child_views, is_candidate, kept_args,
    law_table_below_every_candidate, node_result_ok, paired, pairs_of, pairs_with, search_exact, search_result,
    tables_hold, views_hold,
};
use crate::lambda::{upward_refs, Id, Lambda, COST_NONTERMINAL};

verus! {

/// An invention recorded in a table is one of its entries' keys.
proof fn lemma_recorded_is_key(best: BestInventions, inv: Invention)
    requires
        best.inventionful_cost@.contains_key(inv),
    ensures
        best.inventionful_cost.entries().map_values(|e: (Invention, i32)| e.0).contains(inv),
{
    let e = best.inventionful_cost.entries();
    let i = choose|i: int| 0 <= i < e.len() && (#[trigger] e[i]).0 == inv;
    assert(e.map_values(|e: (Invention, i32)| e.0)[i] == inv);
}

/// At an application node `(app f x)` whose table has room left in the beam,
/// the node's cost under every invention recorded at `f` or at `x` is at
/// most one more than the cost of `f` under it plus the cost of `x` under
/// it (in wrapping `i32` arithmetic): the node with both children written
/// with the invention is never beaten by what the table records.
pub proof fn law_application_cost_through_children(
    amap: Map<Id, Vec<AppLam>>,
    bmap: Map<Id, BestInventions>,
    g: ProgramGraph,
    max_arity: usize,
    beam_size: usize,
    t: Id,
    f: Id,
    x: Id,
    inv: Invention,
)
    requires
        search_exact(amap, bmap, g, max_arity, beam_size),
        bmap.contains_key(t),
        g.nodes()[t as int] == Lambda::App(f, x),
        bmap.contains_key(f),
        bmap.contains_key(x),
        bmap[f].inventionful_cost@.contains_key(inv) || bmap[x].inventionful_cost@.contains_key(inv),
        bmap[t].inventionful_cost.entries().len() < beam_size,
    ensures
        bmap[t].spec_cost_under_inv(inv) <= COST_NONTERMINAL.wrapping_add(bmap[f].spec_cost_under_inv(inv)).wrapping_add(
            bmap[x].spec_cost_under_inv(inv),
        ),
{
    let var0 = choose|var0: Id| #[trigger] search_result(amap, bmap, var0, g, max_arity) && tables_hold(amap, bmap, var0, g, beam_size);
    let node = g.nodes()[t as int];
    let best = bmap[t];
    assert(amap.contains_key(t));
    assert(node_result_ok(t, amap[t]@, best, var0, g, max_arity, amap.dom()));
    assert(best_table(best, node, amap[t]@, var0, bmap, g, beam_size));
    let c = COST_NONTERMINAL.wrapping_add(bmap[f].spec_cost_under_inv(inv)).wrapping_add(bmap[x].spec_cost_under_inv(inv));
    let kf = bmap[f].inventionful_cost.entries().map_values(|e: (Invention, i32)| e.0);
    let kx = bmap[x].inventionful_cost.entries().map_values(|e: (Invention, i32)| e.0);
    assert(node.children() =~= seq![f, x]);
    assert(seq![f, x].drop_last() =~= seq![f]);
    assert(seq![f].drop_last() =~= Seq::<Id>::empty());
    assert(child_keys(bmap, Seq::<Id>::empty()) =~= Seq::<Invention>::empty());
    assert(seq![f].last() == f);
    assert(seq![f, x].last() == x);
    assert(child_keys(bmap, seq![f]) == child_keys(bmap, Seq::<Id>::empty()) + kf);
    assert(child_keys(bmap, seq![f]) =~= kf);
    assert(child_keys(bmap, node.children()) =~= kf + kx);
    if bmap[f].inventionful_cost@.contains_key(inv) {
        lemma_recorded_is_key(bmap[f], inv);
        let i = choose|i: int| 0 <= i < kf.len() && kf[i] == inv;
        assert((kf + kx)[i] == inv);
    } else {
        lemma_recorded_is_key(bmap[x], inv);
        let i = choose|i: int| 0 <= i < kx.len() && kx[i] == inv;
        assert((kf + kx)[kf.len() + i] == inv);
    }
    assert(child_candidate(node, bmap, inv, c));
    assert(is_candidate(node, amap[t]@, var0, bmap, g, inv, c));
    law_table_below_every_candidate(best, node, amap[t]@, var0, bmap, g, beam_size, inv, c);
}

/// Every applam that the search records at an abstraction `(lam b)`, other
/// than the identity, has arguments without a free reference to the
/// abstraction's own binder: an argument that points at the binder cannot
/// be moved out from under it.
pub proof fn law_moved_arguments_avoid_the_binder(
    amap: Map<Id, Vec<AppLam>>,
    g: ProgramGraph,
    max_arity: usize,
    t: Id,
    b: Id,
    k: int,
    j: int,
)
    requires
        views_hold(amap, g, max_arity),
        amap.contains_key(t),
        g.nodes()[t as int] == Lambda::Lam(b),
        1 <= k < amap[t]@.len(),
        0 <= j < amap[t]@[k].args@.len(),
    ensures
        !upward_refs(g.term(amap[t]@[k].args@[j] as int)).contains(0),
{
    let bs = amap[b]@;
    let views = child_views(t, amap, g, max_arity);
    assert(views == crate::inversion::lam_views(bs, g));
    let m = k - 1;
    assert(applam_is(amap[t]@[1 + m], g, views[m].0, views[m].1));
    let i = lemma_lam_views_member(bs, g, m);
    assert(!crate::inversion::refers_to_binder(bs[i], g));
    assert(amap[t]@[k].args@ == bs[i].args@);
    if upward_refs(g.term(bs[i].args@[j] as int)).contains(0) {
        assert(crate::inversion::refers_to_binder(bs[i], g));
    }
}

/// Arguments that share nothing with `fargs` are all kept.
proof fn lemma_nothing_shared_keeps_all(fargs: Seq<Id>, xargs: Seq<Id>)
    requires
        !args_shared(fargs, xargs),
    ensures
        kept_args(fargs, xargs) == xargs,
    decreases xargs.len(),
{
    if xargs.len() > 0 {
        let d = xargs.drop_last();
        assert(!args_shared(fargs, d)) by {
            if args_shared(fargs, d) {
                let i = choose|i: int| 0 <= i < fargs.len() && d.contains(#[trigger] fargs[i]);
                let q = choose|q: int| 0 <= q < d.len() && d[q] == fargs[i];
                assert(xargs[q] == fargs[i]);
                assert(xargs.contains(fargs[i]));
            }
        }
        lemma_nothing_shared_keeps_all(fargs, d);
        if fargs.contains(xargs.last()) {
            let i = choose|i: int| 0 <= i < fargs.len() && fargs[i] == xargs.last();
            assert(xargs[xargs.len() - 1] == fargs[i]);
            assert(xargs.contains(fargs[i]));
        }
        assert(d.push(xargs.last()) =~= xargs);
    }
}

/// A pair that `paired` builds appears in `pairs_with`.
proof fn lemma_pairs_with_has(fa: AppLam, xs: Seq<AppLam>, g: ProgramGraph, max_arity: usize, j: int) -> (m: int)
    requires
        0 <= j < xs.len(),
        paired(fa, xs[j], g, max_arity) is Some,
    ensures
        0 <= m < pairs_with(fa, xs, g, max_arity).len(),
        pairs_with(fa, xs, g, max_arity)[m] == paired(fa, xs[j], g, max_arity)->0,
    decreases xs.len(),
{
    let d = xs.drop_last();
    let r = pairs_with(fa, d, g, max_arity);
    if j == xs.len() - 1 {
        r.len() as int
    } else {
        assert(d[j] == xs[j]);
        lemma_pairs_with_has(fa, d, g, max_arity, j)
    }
}

/// A pair that `paired` builds appears in `pairs_of`.
proof fn lemma_pairs_of_has(fs: Seq<AppLam>, xs: Seq<AppLam>, g: ProgramGraph, max_arity: usize, i: int, j: int) -> (m: int)
    requires
        0 <= i < fs.len(),
        0 <= j < xs.len(),
        paired(fs[i], xs[j], g, max_arity) is Some,
    ensures
        0 <= m < pairs_of(fs, xs, g, max_arity).len(),
        pairs_of(fs, xs, g, max_arity)[m] == paired(fs[i], xs[j], g, max_arity)->0,
    decreases fs.len(),
{
    let d = fs.drop_last();
    let r = pairs_of(d, xs, g, max_arity);
    if i == fs.len() - 1 {
        let m = lemma_pairs_with_has(fs.last(), xs, g, max_arity, j);
        r.len() + m
    } else {
        assert(d[i] == fs[i]);
        lemma_pairs_of_has(d, xs, g, max_arity, i, j)
    }
}

/// At an application node `(app f x)`, every applam of `f` together with
/// every applam of `x` gives the node an applam whose arguments are those of
/// the `f` applam followed by the arguments of the `x` applam that the `f`
/// applam does not already take, whenever that makes at most `max_arity`
/// arguments: the arity bound is inclusive.
pub proof fn law_pairs_within_max_arity_are_kept(
    amap: Map<Id, Vec<AppLam>>,
    g: ProgramGraph,
    max_arity: usize,
    t: Id,
    f: Id,
    x: Id,
    i: int,
    j: int,
) -> (k: int)
    requires
        views_hold(amap, g, max_arity),
        amap.contains_key(t),
        g.nodes()[t as int] == Lambda::App(f, x),
        0 <= i < amap[f]@.len(),
        0 <= j < amap[x]@.len(),
        amap[f]@[i].inv.arity + kept_args(amap[f]@[i].args@, amap[x]@[j].args@).len() <= max_arity,
    ensures
        1 <= k < amap[t]@.len(),
        amap[t]@[k].args@ == amap[f]@[i].args@ + kept_args(amap[f]@[i].args@, amap[x]@[j].args@),
        amap[t]@[k].inv.arity == amap[t]@[k].args@.len(),
{
    let fs = amap[f]@;
    let xs = amap[x]@;
    let fargs = fs[i].args@;
    let xargs = xs[j].args@;
    if !args_shared(fargs, xargs) {
        lemma_nothing_shared_keeps_all(fargs, xargs);
    }
    assert(paired(fs[i], xs[j], g, max_arity) is Some);
    let m = lemma_pairs_of_has(fs, xs, g, max_arity, i, j);
    let lm = fs.map_values(|a: AppLam| crate::inversion::left_bubbled(a, x, g));
    let rm = xs.map_values(|a: AppLam| crate::inversion::right_bubbled(a, f, g));
    let views = child_views(t, amap, g, max_arity);
    assert(views == app_views(f, x, fs, xs, g, max_arity));
    let p = lm.len() + rm.len() + m;
    assert(views[p] == pairs_of(fs, xs, g, max_arity)[m]);
    assert(applam_is(amap[t]@[1 + p], g, views[p].0, views[p].1));
    1 + p
}

/// At an abstraction `(lam b)` whose table has room left in the beam, the
/// node's cost under every invention recorded at `b` is at most one more
/// than the cost of `b` under it (in wrapping `i32` arithmetic).
pub proof fn law_abstraction_cost_through_body(
    amap: Map<Id, Vec<AppLam>>,
    bmap: Map<Id, BestInventions>,
    g: ProgramGraph,
    max_arity: usize,
    beam_size: usize,
    t: Id,
    b: Id,
    inv: Invention,
)
    requires
        search_exact(amap, bmap, g, max_arity, beam_size),
        bmap.contains_key(t),
        g.nodes()[t as int] == Lambda::Lam(b),
        bmap.contains_key(b),
        bmap[b].inventionful_cost@.contains_key(inv),
        bmap[t].inventionful_cost.entries().len() < beam_size,
    ensures
        bmap[t].spec_cost_under_inv(inv) <= bmap[b].spec_cost_under_inv(inv).wrapping_add(COST_NONTERMINAL),
{
    let var0 = choose|var0: Id| #[trigger] search_result(amap, bmap, var0, g, max_arity) && tables_hold(amap, bmap, var0, g, beam_size);
    let node = g.nodes()[t as int];
    let best = bmap[t];
    assert(amap.contains_key(t));
    assert(node_result_ok(t, amap[t]@, best, var0, g, max_arity, amap.dom()));
    assert(best_table(best, node, amap[t]@, var0, bmap, g, beam_size));
    let c = bmap[b].inventionful_cost@[inv].wrapping_add(COST_NONTERMINAL);
    assert(child_candidate(node, bmap, inv, c));
    assert(is_candidate(node, amap[t]@, var0, bmap, g, inv, c));
    law_table_below_every_candidate(best, node, amap[t]@, var0, bmap, g, beam_size, inv, c);
}

/// At a node whose table has room left in the beam, the cost under the
/// invention of any of its applams whose invention is valid and is not the
/// bare variable `$0` is at most the cost of writing the node with that
/// applam: the new primitive, one application per argument, and each
/// argument at its own cost under the invention (in wrapping `i32`
/// arithmetic).
pub proof fn law_applam_cost_bounds_the_node(
    amap: Map<Id, Vec<AppLam>>,
    bmap: Map<Id, BestInventions>,
    g: ProgramGraph,
    max_arity: usize,
    beam_size: usize,
    t: Id,
    i: int,
)
    requires
        search_exact(amap, bmap, g, max_arity, beam_size),
        amap.contains_key(t),
        0 <= i < amap[t]@.len(),
        amap[t]@[i].inv.spec_valid(g),
        g.term(amap[t]@[i].inv.body as int) != crate::lambda::Term::Var(0),
        bmap[t].inventionful_cost.entries().len() < beam_size,
    ensures
        ({
            let a = amap[t]@[i];
            bmap[t].spec_cost_under_inv(a.inv) <= crate::lambda::COST_TERMINAL.wrapping_add(
                COST_NONTERMINAL.wrapping_mul(a.inv.arity as i32),
            ).wrapping_add(crate::lambda::wrapping_sum(a.args@.map_values(|arg: Id| bmap[arg].spec_cost_under_inv(a.inv))))
        }),
{
    let var0 = choose|var0: Id| #[trigger] search_result(amap, bmap, var0, g, max_arity) && tables_hold(amap, bmap, var0, g, beam_size);
    let node = g.nodes()[t as int];
    let best = bmap[t];
    let a = amap[t]@[i];
    assert(bmap.contains_key(t));
    assert(node_result_ok(t, amap[t]@, best, var0, g, max_arity, amap.dom()));
    assert(best_table(best, node, amap[t]@, var0, bmap, g, beam_size));
    assert(a.inv.body != var0);
    let c = crate::inversion::applam_cost(a, bmap);
    assert(crate::inversion::applam_candidate(amap[t]@, var0, bmap, g, amap[t]@.len() as int, a.inv, c));
    assert(is_candidate(node, amap[t]@, var0, bmap, g, a.inv, c));
    law_table_below_every_candidate(best, node, amap[t]@, var0, bmap, g, beam_size, a.inv, c);
}

/// At an application node `(app f x)`, every applam of `f` gives the node
/// an applam with the same arguments, and so does every applam of `x`.
pub proof fn law_child_applams_bubble_up(
    amap: Map<Id, Vec<AppLam>>,
    g: ProgramGraph,
    max_arity: usize,
    t: Id,
    f: Id,
    x: Id,
    from_f: bool,
    i: int,
) -> (k: int)
    requires
        views_hold(amap, g, max_arity),
        amap.contains_key(t),
        g.nodes()[t as int] == Lambda::App(f, x),
        from_f ==> 0 <= i < amap[f]@.len(),
        !from_f ==> 0 <= i < amap[x]@.len(),
    ensures
        1 <= k < amap[t]@.len(),
        from_f ==> amap[t]@[k].args@ == amap[f]@[i].args@,
        !from_f ==> amap[t]@[k].args@ == amap[x]@[i].args@,
        amap[t]@[k].inv.arity == amap[t]@[k].args@.len(),
{
    let fs = amap[f]@;
    let xs = amap[x]@;
    let lm = fs.map_values(|a: AppLam| crate::inversion::left_bubbled(a, x, g));
    let rm = xs.map_values(|a: AppLam| crate::inversion::right_bubbled(a, f, g));
    let views = child_views(t, amap, g, max_arity);
    assert(views == app_views(f, x, fs, xs, g, max_arity));
    let p = if from_f { i } else { lm.len() + i };
    assert(views[p] == if from_f { lm[i] } else { rm[i] });
    assert(applam_is(amap[t]@[1 + p], g, views[p].0, views[p].1));
    1 + p
}

} // verus!
