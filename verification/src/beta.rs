//! What an applam means: its body with its arguments substituted for the
//! references to its argument slots (a beta-reduction), and which of the
//! search's construction steps keep that meaning equal to the node's tree.

use vstd::prelude::*;
use crate::graph::ProgramGraph;
use crate::invention::AppLam;
use crate::inversion::{
    app_views, applam_is, applams_are, args_shared, child_views, first_pos, kept_args, lam_views, left_bubbled,
    node_result_ok, over_lam, paired, pairs_of, pairs_with, reindex_table, right_bubbled, search_result,
    shared_before, views_hold,
};
use crate::lambda::{outer_index, upward_refs, Id, Lambda, Term};
use crate::shift::{
    lemma_shift_keeps_free, lemma_shift_safe_in_range, modify_term, refs_below, shift_safe,
    shift_term, shifted, vars_in_range, VarModView,
};

verus! {

/// The trees of the nodes `args` of `g`.
pub open spec fn arg_terms(args: Seq<Id>, g: ProgramGraph) -> Seq<Term> {
    args.map_values(|a: Id| g.term(a as int))
}

/// `body` with the argument trees `args` substituted: a free `$i` with
/// `i < args.len()` becomes `args[i]`, every other free variable points
/// `args.len()` binders closer.
pub open spec fn filled(body: Term, args: Seq<Term>) -> Term {
    modify_term(body, 0, VarModView::Fill(args))
}

/// The tree that applam `a` of graph `g` stands for.
pub open spec fn applam_term(a: AppLam, g: ProgramGraph) -> Term {
    filled(g.term(a.inv.body as int), arg_terms(a.args@, g))
}

/// The tree that a built applam (body tree, argument nodes) stands for.
pub open spec fn view_term(v: (Term, Seq<Id>), g: ProgramGraph) -> Term {
    filled(v.0, arg_terms(v.1, g))
}

/// Under an abstraction with a free variable at `depth`, and variable
/// indices at most `hi`, the depth is below `hi`.
pub proof fn lemma_lam_depth(t: Term, depth: i32, hi: int)
    requires
        t is Lam,
        vars_in_range(t, hi),
        !refs_below(t, depth),
    ensures
        depth < hi,
{
    if let Term::Lam(b) = t {
        let r = choose|r: i32| #[trigger] upward_refs(t).contains(r) && !(r < depth);
        let x = choose|x: i32| #[trigger] upward_refs(*b).contains(x) && outer_index(x) == r;
        crate::shift::lemma_refs_in_range(*b, hi, x);
    }
}

/// A rewrite of free variables goes into both sides of an application.
pub proof fn lemma_modify_app(a: Term, b: Term, depth: i32, vm: VarModView)
    ensures
        modify_term(Term::App(Box::new(a), Box::new(b)), depth, vm)
            == Term::App(Box::new(modify_term(a, depth, vm)), Box::new(modify_term(b, depth, vm))),
{
    let t = Term::App(Box::new(a), Box::new(b));
    if refs_below(t, depth) {
        assert forall|r: i32| #[trigger] upward_refs(a).contains(r) implies r < depth by {
            assert(upward_refs(t).contains(r));
        }
        assert forall|r: i32| #[trigger] upward_refs(b).contains(r) implies r < depth by {
            assert(upward_refs(t).contains(r));
        }
    }
}

/// Substituting into a tree whose free variables all refer to the first
/// `f.len()` slots gives the same tree with more arguments after them.
pub proof fn lemma_fill_extra(t: Term, depth: i32, f: Seq<Term>, x: Seq<Term>)
    requires
        0 <= depth,
        depth + f.len() + x.len() < i32::MAX,
        vars_in_range(t, i32::MAX - f.len() - x.len() - 1),
        refs_below(t, (depth + f.len()) as i32),
    ensures
        modify_term(t, depth, VarModView::Fill(f + x)) == modify_term(t, depth, VarModView::Fill(f)),
    decreases t,
{
    if !refs_below(t, depth) {
        match t {
            Term::Var(i) => {
                assert(upward_refs(t).contains(i));
                assert((f + x)[(i - depth) as int] == f[(i - depth) as int]);
            },
            Term::App(a, b) => {
                assert(refs_below(*a, (depth + f.len()) as i32)) by {
                    assert forall|r: i32| #[trigger] upward_refs(*a).contains(r) implies r < depth + f.len() by {
                        assert(upward_refs(t).contains(r));
                    }
                }
                assert(refs_below(*b, (depth + f.len()) as i32)) by {
                    assert forall|r: i32| #[trigger] upward_refs(*b).contains(r) implies r < depth + f.len() by {
                        assert(upward_refs(t).contains(r));
                    }
                }
                lemma_fill_extra(*a, depth, f, x);
                lemma_fill_extra(*b, depth, f, x);
            },
            Term::Lam(b) => {
                assert(refs_below(*b, (depth + 1 + f.len()) as i32)) by {
                    assert forall|r: i32| #[trigger] upward_refs(*b).contains(r) implies r < depth + 1 + f.len() by {
                        if r >= depth + 1 + f.len() {
                            let y = outer_index(r);
                            assert(upward_refs(t).contains(y));
                        }
                    }
                }
                lemma_lam_depth(t, depth, i32::MAX - f.len() - x.len() - 1);
                lemma_fill_extra(*b, (depth + 1) as i32, f, x);
            },
            _ => {},
        }
    }
}

/// Substituting into a tree shifted past `f.len()` slots, whose free
/// variables refer to the next `x.len()` slots, fills them from `x`.
pub proof fn lemma_fill_shifted_tail(t: Term, depth: i32, f: Seq<Term>, x: Seq<Term>)
    requires
        0 <= depth,
        depth + f.len() + x.len() < i32::MAX,
        vars_in_range(t, i32::MAX - f.len() - x.len() - 1),
        refs_below(t, (depth + x.len()) as i32),
        shift_safe(t, depth, f.len() as i32),
    ensures
        modify_term(shifted(t, depth, f.len() as i32), depth, VarModView::Fill(f + x))
            == modify_term(t, depth, VarModView::Fill(x)),
    decreases t,
{
    let n = f.len() as i32;
    if !refs_below(t, depth) {
        let r = choose|r: i32| #[trigger] upward_refs(t).contains(r) && !(r < depth);
        let r2 = lemma_shift_keeps_free(t, depth, n, r);
        assert(!refs_below(shifted(t, depth, n), depth));
        match t {
            Term::Var(i) => {
                assert(upward_refs(t).contains(i));
                assert((f + x)[(i + n - depth) as int] == x[(i - depth) as int]);
            },
            Term::App(a, b) => {
                assert(refs_below(*a, (depth + x.len()) as i32)) by {
                    assert forall|q: i32| #[trigger] upward_refs(*a).contains(q) implies q < depth + x.len() by {
                        assert(upward_refs(t).contains(q));
                    }
                }
                assert(refs_below(*b, (depth + x.len()) as i32)) by {
                    assert forall|q: i32| #[trigger] upward_refs(*b).contains(q) implies q < depth + x.len() by {
                        assert(upward_refs(t).contains(q));
                    }
                }
                lemma_fill_shifted_tail(*a, depth, f, x);
                lemma_fill_shifted_tail(*b, depth, f, x);
            },
            Term::Lam(b) => {
                assert(refs_below(*b, (depth + 1 + x.len()) as i32)) by {
                    assert forall|q: i32| #[trigger] upward_refs(*b).contains(q) implies q < depth + 1 + x.len() by {
                        if q >= depth + 1 + x.len() {
                            let y = outer_index(q);
                            assert(upward_refs(t).contains(y));
                        }
                    }
                }
                lemma_lam_depth(t, depth, i32::MAX - f.len() - x.len() - 1);
                lemma_fill_shifted_tail(*b, (depth + 1) as i32, f, x);
            },
            _ => {},
        }
    }
}

/// Substituting `n` arguments into a tree shifted by `n` gives the tree back.
pub proof fn lemma_fill_after_shift(t: Term, depth: i32, args: Seq<Term>)
    requires
        0 <= depth,
        depth + args.len() < i32::MAX,
        vars_in_range(t, i32::MAX - args.len() - 1),
        shift_safe(t, depth, args.len() as i32),
    ensures
        modify_term(shifted(t, depth, args.len() as i32), depth, VarModView::Fill(args)) == t,
    decreases t,
{
    let n = args.len() as i32;
    if !refs_below(t, depth) {
        let r = choose|r: i32| #[trigger] upward_refs(t).contains(r) && !(r < depth);
        let r2 = lemma_shift_keeps_free(t, depth, n, r);
        assert(!refs_below(shifted(t, depth, n), depth));
        match t {
            Term::Var(i) => {},
            Term::App(a, b) => {
                lemma_fill_after_shift(*a, depth, args);
                lemma_fill_after_shift(*b, depth, args);
            },
            Term::Lam(b) => {
                lemma_lam_depth(t, depth, i32::MAX - args.len() - 1);
                lemma_fill_after_shift(*b, (depth + 1) as i32, args);
            },
            _ => {},
        }
    }
}

/// Variable bounds carry over to a larger bound.
pub proof fn lemma_vars_in_range_mono(t: Term, h1: int, h2: int)
    requires
        vars_in_range(t, h1),
        h1 <= h2,
    ensures
        vars_in_range(t, h2),
    decreases t,
{
    match t {
        Term::App(f, x) => {
            lemma_vars_in_range_mono(*f, h1, h2);
            lemma_vars_in_range_mono(*x, h1, h2);
        },
        Term::Lam(b) => lemma_vars_in_range_mono(*b, h1, h2),
        _ => {},
    }
}

/// The tree of an application node.
proof fn lemma_app_term(g: ProgramGraph, t: Id, f: Id, x: Id)
    requires
        g.wf(),
        t < g.nodes().len(),
        g.nodes()[t as int] == Lambda::App(f, x),
    ensures
        f < g.nodes().len(),
        x < g.nodes().len(),
        g.term(t as int) == Term::App(Box::new(g.term(f as int)), Box::new(g.term(x as int))),
{
    g.lemma_wf();
    assert(g.nodes()[t as int].children()[0] < t && g.nodes()[t as int].children()[1] < t);
}

/// The identity applam `(applam $0 t)` stands for `t`.
pub proof fn law_identity_applam(g: ProgramGraph, var0: Id, t: Id)
    requires
        g.wf(),
        t < g.nodes().len(),
        var0 < g.nodes().len(),
        g.term(var0 as int) == Term::Var(0),
    ensures
        view_term((g.term(var0 as int), seq![t]), g) == g.term(t as int),
{
    let a = arg_terms(seq![t], g);
    assert(a[0] == g.term(t as int));
    assert(upward_refs(Term::Var(0)).contains(0));
    crate::shift::lemma_shifted_zero(g.term(t as int), 0);
}

/// Bubbling an applam of `f` up over `(app f x)` keeps its meaning: when
/// the applam of `f` stands for `f`, the bubbled one stands for
/// `(app f x)` (the tree of `x` having variable indices small enough for
/// the shift past the arguments).
pub proof fn law_left_bubbled(g: ProgramGraph, fa: AppLam, t: Id, f: Id, x: Id)
    requires
        g.wf(),
        t < g.nodes().len(),
        g.nodes()[t as int] == Lambda::App(f, x),
        fa.inv.arity == fa.args@.len(),
        fa.inv.arity < i32::MAX,
        applam_term(fa, g) == g.term(f as int),
        vars_in_range(g.term(x as int), i32::MAX - fa.inv.arity - 1),
    ensures
        view_term(left_bubbled(fa, x, g), g) == g.term(t as int),
{
    lemma_app_term(g, t, f, x);
    let args = arg_terms(fa.args@, g);
    let n = fa.inv.arity as i32;
    let xt = g.term(x as int);
    lemma_vars_in_range_mono(xt, i32::MAX - fa.inv.arity - 1, i32::MAX - n);
    lemma_shift_safe_in_range(xt, 0, n);
    lemma_fill_after_shift(xt, 0, args);
    lemma_modify_app(g.term(fa.inv.body as int), shift_term(xt, n), 0, VarModView::Fill(args));
}

/// Bubbling an applam of `x` up over `(app f x)` keeps its meaning.
pub proof fn law_right_bubbled(g: ProgramGraph, xa: AppLam, t: Id, f: Id, x: Id)
    requires
        g.wf(),
        t < g.nodes().len(),
        g.nodes()[t as int] == Lambda::App(f, x),
        xa.inv.arity == xa.args@.len(),
        xa.inv.arity < i32::MAX,
        applam_term(xa, g) == g.term(x as int),
        vars_in_range(g.term(f as int), i32::MAX - xa.inv.arity - 1),
    ensures
        view_term(right_bubbled(xa, f, g), g) == g.term(t as int),
{
    lemma_app_term(g, t, f, x);
    let args = arg_terms(xa.args@, g);
    let n = xa.inv.arity as i32;
    let ft = g.term(f as int);
    lemma_vars_in_range_mono(ft, i32::MAX - xa.inv.arity - 1, i32::MAX - n);
    lemma_shift_safe_in_range(ft, 0, n);
    lemma_fill_after_shift(ft, 0, args);
    lemma_modify_app(shift_term(ft, n), g.term(xa.inv.body as int), 0, VarModView::Fill(args));
}

/// Pairing an applam of `f` with one of `x` that share no argument keeps
/// the meaning when both bodies refer to nothing past their own arguments
/// (both inventions valid): the pair stands for `(app f x)`. (A body of the
/// applam of `f` that refers past its arguments is not shifted past the
/// arguments of `x`, and the pair then stands for another tree.)
pub proof fn law_paired_disjoint(g: ProgramGraph, fa: AppLam, xa: AppLam, t: Id, f: Id, x: Id, max_arity: usize)
    requires
        g.wf(),
        t < g.nodes().len(),
        g.nodes()[t as int] == Lambda::App(f, x),
        fa.inv.arity == fa.args@.len(),
        xa.inv.arity == xa.args@.len(),
        fa.inv.arity + xa.inv.arity < i32::MAX,
        !args_shared(fa.args@, xa.args@),
        paired(fa, xa, g, max_arity) is Some,
        applam_term(fa, g) == g.term(f as int),
        applam_term(xa, g) == g.term(x as int),
        fa.inv.spec_valid(g),
        xa.inv.spec_valid(g),
        vars_in_range(g.term(fa.inv.body as int), i32::MAX - fa.inv.arity - xa.inv.arity - 1),
        vars_in_range(g.term(xa.inv.body as int), i32::MAX - fa.inv.arity - xa.inv.arity - 1),
    ensures
        view_term(paired(fa, xa, g, max_arity)->0, g) == g.term(t as int),
{
    lemma_app_term(g, t, f, x);
    let fs = arg_terms(fa.args@, g);
    let xs = arg_terms(xa.args@, g);
    assert(arg_terms(fa.args@ + xa.args@, g) =~= fs + xs);
    let nf = fa.inv.arity as i32;
    let bf = g.term(fa.inv.body as int);
    let bx = g.term(xa.inv.body as int);
    lemma_fill_extra(bf, 0, fs, xs);
    lemma_vars_in_range_mono(bx, i32::MAX - fa.inv.arity - xa.inv.arity - 1, i32::MAX - nf);
    lemma_shift_safe_in_range(bx, 0, nf);
    lemma_fill_shifted_tail(bx, 0, fs, xs);
    lemma_modify_app(bf, shift_term(bx, nf), 0, VarModView::Fill(fs + xs));
}

/// A rewrite of free variables goes under an abstraction, one binder
/// deeper, for a body whose variable indices are not negative.
pub proof fn lemma_modify_lam(b: Term, depth: i32, hi: int, vm: VarModView)
    requires
        0 <= depth < i32::MAX,
        vars_in_range(b, hi),
    ensures
        modify_term(Term::Lam(Box::new(b)), depth, vm) == Term::Lam(Box::new(modify_term(b, (depth + 1) as i32, vm))),
{
    let t = Term::Lam(Box::new(b));
    if refs_below(t, depth) {
        assert forall|x: i32| #[trigger] upward_refs(b).contains(x) implies x < depth + 1 by {
            crate::shift::lemma_refs_in_range(b, hi, x);
            if x >= depth + 1 {
                let y = outer_index(x);
                assert(upward_refs(t).contains(y));
            }
        }
    }
}

/// Moving over a binder keeps variable indices non-negative, raising the
/// largest by at most one.
pub proof fn lemma_over_lambda_range(t: Term, depth: i32, n: i32, hi: int)
    requires
        0 <= depth,
        0 <= n,
        hi < i32::MAX,
        vars_in_range(t, hi),
    ensures
        vars_in_range(modify_term(t, depth, VarModView::OverLambda(n)), hi + 1),
    decreases t,
{
    if !refs_below(t, depth) {
        match t {
            Term::Var(i) => {
                assert(upward_refs(t).contains(i));
            },
            Term::App(a, b) => {
                lemma_over_lambda_range(*a, depth, n, hi);
                lemma_over_lambda_range(*b, depth, n, hi);
            },
            Term::Lam(b) => {
                lemma_lam_depth(t, depth, hi);
                lemma_over_lambda_range(*b, (depth + 1) as i32, n, hi);
            },
            _ => {},
        }
    } else {
        lemma_vars_in_range_mono(t, hi, hi + 1);
    }
}

/// A tree without free variables is its own shift.
pub proof fn lemma_shift_closed(t: Term, depth: i32)
    requires
        upward_refs(t).is_empty(),
    ensures
        shift_term(t, depth) == t,
{
    assert(refs_below(t, 0));
}

/// Moving a body over one more binder and then substituting closed
/// arguments one binder deeper is substituting them into the body.
pub proof fn lemma_fill_over_lambda(t: Term, depth: i32, args: Seq<Term>)
    requires
        0 <= depth < i32::MAX - 4,
        args.len() < i32::MAX - 4,
        vars_in_range(t, i32::MAX - 5),
        forall|k: int| 0 <= k < args.len() ==> (#[trigger] upward_refs(args[k])).is_empty(),
    ensures
        modify_term(modify_term(t, depth, VarModView::OverLambda(args.len() as i32)), (depth + 1) as i32, VarModView::Fill(args))
            == modify_term(t, depth, VarModView::Fill(args)),
    decreases t,
{
    let n = args.len() as i32;
    let ol = VarModView::OverLambda(n);
    let fl = VarModView::Fill(args);
    if refs_below(t, depth) {
        assert forall|r: i32| #[trigger] upward_refs(t).contains(r) implies r < depth + 1 by {}
    } else {
        match t {
            Term::Var(i) => {
                assert(upward_refs(t).contains(i));
                let w = i - depth;
                if w == n {
                    assert(upward_refs(Term::Var((i - n) as i32)).contains((i - n) as i32));
                } else if w < n {
                    lemma_shift_closed(args[w], (depth + 1) as i32);
                    lemma_shift_closed(args[w], depth);
                    assert(upward_refs(Term::Var((i + 1) as i32)).contains((i + 1) as i32));
                } else {
                    assert(upward_refs(Term::Var(i)).contains(i));
                }
            },
            Term::App(a, b) => {
                lemma_fill_over_lambda(*a, depth, args);
                lemma_fill_over_lambda(*b, depth, args);
                lemma_modify_app(*a, *b, depth, ol);
                lemma_modify_app(modify_term(*a, depth, ol), modify_term(*b, depth, ol), (depth + 1) as i32, fl);
                lemma_modify_app(*a, *b, depth, fl);
            },
            Term::Lam(b) => {
                lemma_lam_depth(t, depth, i32::MAX - 5);
                lemma_fill_over_lambda(*b, (depth + 1) as i32, args);
                let sb = modify_term(*b, (depth + 1) as i32, ol);
                lemma_over_lambda_range(*b, (depth + 1) as i32, n, i32::MAX - 5);
                lemma_modify_lam(sb, (depth + 1) as i32, i32::MAX - 4, fl);
                lemma_modify_lam(*b, depth, i32::MAX - 5, fl);
            },
            _ => {},
        }
    }
}

/// The tree of an abstraction node.
proof fn lemma_lam_term(g: ProgramGraph, t: Id, b: Id)
    requires
        g.wf(),
        t < g.nodes().len(),
        g.nodes()[t as int] == Lambda::Lam(b),
    ensures
        b < g.nodes().len(),
        g.term(t as int) == Term::Lam(Box::new(g.term(b as int))),
{
    g.lemma_wf();
    assert(g.nodes()[t as int].children()[0] < t);
}

/// Moving an applam of `b` up over `(lam b)` keeps its meaning when its
/// arguments have no free variables: the moved one stands for `(lam b)`.
/// (Arguments are kept as they are, so one referring past the binder would
/// point one binder further out once moved above it.)
pub proof fn law_over_lam(g: ProgramGraph, ba: AppLam, t: Id, b: Id)
    requires
        g.wf(),
        t < g.nodes().len(),
        g.nodes()[t as int] == Lambda::Lam(b),
        ba.inv.arity == ba.args@.len(),
        ba.inv.arity < i32::MAX - 4,
        applam_term(ba, g) == g.term(b as int),
        over_lam(ba, g) is Some,
        vars_in_range(g.term(ba.inv.body as int), i32::MAX - 5),
        forall|k: int| 0 <= k < ba.args@.len() ==> (#[trigger] upward_refs(g.term(ba.args@[k] as int))).is_empty(),
    ensures
        view_term(over_lam(ba, g)->0, g) == g.term(t as int),
{
    lemma_lam_term(g, t, b);
    let args = arg_terms(ba.args@, g);
    let n = ba.inv.arity as i32;
    let bb = g.term(ba.inv.body as int);
    assert forall|k: int| 0 <= k < args.len() implies (#[trigger] upward_refs(args[k])).is_empty() by {
        assert(args[k] == g.term(ba.args@[k] as int));
    }
    lemma_fill_over_lambda(bb, 0, args);
    let sb = modify_term(bb, 0, VarModView::OverLambda(n));
    lemma_over_lambda_range(bb, 0, n, i32::MAX - 5);
    lemma_modify_lam(sb, 0, i32::MAX - 4, VarModView::Fill(args));
}

/// Re-indexing keeps variable indices non-negative when every slot moves to
/// a position below `m`.
pub proof fn lemma_reindex_range(t: Term, depth: i32, tab: Seq<i32>, nx: i32, hi: int, m: int)
    requires
        0 <= depth,
        0 <= m,
        hi + m < i32::MAX,
        nx == tab.len(),
        vars_in_range(t, hi),
        forall|w: int| 0 <= w < nx ==> 0 <= w + #[trigger] tab[w] < m,
    ensures
        vars_in_range(modify_term(t, depth, VarModView::Reindex(tab, nx)), hi + m),
    decreases t,
{
    if !refs_below(t, depth) {
        match t {
            Term::Var(i) => {
                assert(upward_refs(t).contains(i));
            },
            Term::App(a, b) => {
                lemma_reindex_range(*a, depth, tab, nx, hi, m);
                lemma_reindex_range(*b, depth, tab, nx, hi, m);
            },
            Term::Lam(b) => {
                lemma_lam_depth(t, depth, hi);
                lemma_reindex_range(*b, (depth + 1) as i32, tab, nx, hi, m);
            },
            _ => {},
        }
    } else {
        lemma_vars_in_range_mono(t, hi, hi + m);
    }
}

/// Re-indexing the argument slots of a body by `tab` and then substituting
/// `args` is substituting `xs` directly, when slot `w` moves to a position
/// of `args` holding `xs[w]`.
pub proof fn lemma_fill_after_reindex(t: Term, depth: i32, tab: Seq<i32>, args: Seq<Term>, xs: Seq<Term>)
    requires
        0 <= depth,
        args.len() < 1000000,
        xs.len() < 1000000,
        xs.len() == tab.len(),
        vars_in_range(t, i32::MAX - 2000000),
        refs_below(t, (depth + xs.len()) as i32),
        depth + xs.len() < i32::MAX,
        forall|w: int| 0 <= w < xs.len() ==> 0 <= w + #[trigger] tab[w] < args.len() && args[w + tab[w]] == xs[w],
    ensures
        modify_term(modify_term(t, depth, VarModView::Reindex(tab, xs.len() as i32)), depth, VarModView::Fill(args))
            == modify_term(t, depth, VarModView::Fill(xs)),
    decreases t,
{
    let nx = xs.len() as i32;
    let rv = VarModView::Reindex(tab, nx);
    let fl = VarModView::Fill(args);
    let fx = VarModView::Fill(xs);
    if !refs_below(t, depth) {
        match t {
            Term::Var(i) => {
                assert(upward_refs(t).contains(i));
                let w = i - depth;
                assert(w < nx);
                let j = (i + tab[w]) as i32;
                assert(upward_refs(Term::Var(j)).contains(j));
            },
            Term::App(a, b) => {
                assert(refs_below(*a, (depth + nx) as i32)) by {
                    assert forall|q: i32| #[trigger] upward_refs(*a).contains(q) implies q < depth + nx by {
                        assert(upward_refs(t).contains(q));
                    }
                }
                assert(refs_below(*b, (depth + nx) as i32)) by {
                    assert forall|q: i32| #[trigger] upward_refs(*b).contains(q) implies q < depth + nx by {
                        assert(upward_refs(t).contains(q));
                    }
                }
                lemma_fill_after_reindex(*a, depth, tab, args, xs);
                lemma_fill_after_reindex(*b, depth, tab, args, xs);
                lemma_modify_app(*a, *b, depth, rv);
                lemma_modify_app(modify_term(*a, depth, rv), modify_term(*b, depth, rv), depth, fl);
                lemma_modify_app(*a, *b, depth, fx);
            },
            Term::Lam(b) => {
                lemma_lam_depth(t, depth, i32::MAX - 2000000);
                assert(refs_below(*b, (depth + 1 + nx) as i32)) by {
                    assert forall|q: i32| #[trigger] upward_refs(*b).contains(q) implies q < depth + 1 + nx by {
                        if q >= depth + 1 + nx {
                            let y = outer_index(q);
                            assert(upward_refs(t).contains(y));
                        }
                    }
                }
                lemma_fill_after_reindex(*b, (depth + 1) as i32, tab, args, xs);
                lemma_modify_lam(*b, depth, i32::MAX - 2000000, rv);
                let sb = modify_term(*b, (depth + 1) as i32, rv);
                lemma_reindex_range(*b, (depth + 1) as i32, tab, nx, i32::MAX - 2000000, args.len() as int);
                lemma_vars_in_range_mono(sb, i32::MAX - 2000000 + args.len(), i32::MAX - 1000000);
                lemma_modify_lam(sb, depth, i32::MAX - 1000000, fl);
                lemma_modify_lam(*b, depth, i32::MAX - 2000000, fx);
            },
            _ => {},
        }
    }
}

/// How many of the first `k` arguments of `xs` are shared stays between 0
/// and `k`, and does not depend on the arguments after them.
pub proof fn lemma_shared_before(f: Seq<Id>, xs: Seq<Id>, k: int)
    requires
        0 <= k <= xs.len(),
    ensures
        0 <= shared_before(f, xs, k) <= k,
        k < xs.len() ==> shared_before(f, xs.drop_last(), k) == shared_before(f, xs, k),
    decreases k,
{
    if k > 0 {
        lemma_shared_before(f, xs, k - 1);
        if k < xs.len() {
            assert(xs.drop_last()[k - 1] == xs[k - 1]);
        }
    }
}

/// The kept arguments are the unshared ones: there are as many as
/// unshared arguments, and an unshared argument `k` sits at position
/// `k - shared_before(k)` among them.
pub proof fn lemma_kept_index(f: Seq<Id>, xs: Seq<Id>, k: int)
    requires
        0 <= k < xs.len(),
    ensures
        kept_args(f, xs).len() == xs.len() - shared_before(f, xs, xs.len() as int),
        !f.contains(xs[k]) ==> 0 <= k - shared_before(f, xs, k) < kept_args(f, xs).len()
            && kept_args(f, xs)[k - shared_before(f, xs, k)] == xs[k],
    decreases xs.len(),
{
    let x0 = xs.drop_last();
    let n = xs.len() - 1;
    lemma_shared_before(f, xs, k);
    lemma_shared_before(f, xs, n);
    lemma_shared_before(f, xs, xs.len() as int);
    if n > 0 {
        let kk = if k < n { k } else { 0 };
        lemma_kept_index(f, x0, kk);
    } else {
        assert(x0.len() == 0);
    }
    assert(xs.last() == xs[n]);
    if k < n {
        assert(x0[k] == xs[k]);
        lemma_shared_before(f, x0, k);
    }
}

/// Pairing an applam of `f` with one of `x` whose arguments overlap merges
/// the shared arguments, and keeps the meaning when both bodies refer to
/// nothing past their own arguments: the pair stands for `(app f x)`.
pub proof fn law_paired_merged(g: ProgramGraph, fa: AppLam, xa: AppLam, t: Id, f: Id, x: Id, max_arity: usize)
    requires
        g.wf(),
        t < g.nodes().len(),
        g.nodes()[t as int] == Lambda::App(f, x),
        fa.inv.arity == fa.args@.len(),
        xa.inv.arity == xa.args@.len(),
        fa.inv.arity + xa.inv.arity < 1000000,
        args_shared(fa.args@, xa.args@),
        paired(fa, xa, g, max_arity) is Some,
        applam_term(fa, g) == g.term(f as int),
        applam_term(xa, g) == g.term(x as int),
        fa.inv.spec_valid(g),
        xa.inv.spec_valid(g),
        vars_in_range(g.term(fa.inv.body as int), i32::MAX - 2000000),
        vars_in_range(g.term(xa.inv.body as int), i32::MAX - 2000000),
    ensures
        view_term(paired(fa, xa, g, max_arity)->0, g) == g.term(t as int),
{
    lemma_app_term(g, t, f, x);
    let fids = fa.args@;
    let xids = xa.args@;
    let kept = kept_args(fids, xids);
    let fs = arg_terms(fids, g);
    let ks = arg_terms(kept, g);
    let xs = arg_terms(xids, g);
    let all = fs + ks;
    assert(arg_terms(fids + kept, g) =~= all);
    let tab = reindex_table(fids, xids);
    let bf = g.term(fa.inv.body as int);
    let bx = g.term(xa.inv.body as int);
    if xids.len() > 0 {
        lemma_kept_index(fids, xids, 0);
    }
    assert forall|w: int| 0 <= w < xs.len() implies 0 <= w + #[trigger] tab[w] < all.len() && all[w + tab[w]] == xs[w] by {
        lemma_kept_index(fids, xids, w);
        lemma_shared_before(fids, xids, w);
        if fids.contains(xids[w]) {
            let j = choose|j: int| 0 <= j < fids.len() && fids[j] == xids[w];
            lemma_first_pos_exists(fids, xids[w], j);
            let p = choose|p: int| first_pos(fids, xids[w], p);
            assert(tab[w] == (p - w) as i32);
            assert(all[p] == fs[p]);
        } else {
            let q = w - shared_before(fids, xids, w);
            assert(all[fids.len() + q] == ks[q]);
        }
    }
    if xids.len() > 0 {
        lemma_shared_before(fids, xids, xids.len() as int);
    }
    assert(ks.len() <= xs.len());
    lemma_vars_in_range_mono(bf, i32::MAX - 2000000, i32::MAX - fs.len() - ks.len() - 1);
    lemma_fill_extra(bf, 0, fs, ks);
    lemma_fill_after_reindex(bx, 0, tab, all, xs);
    let rx = modify_term(bx, 0, VarModView::Reindex(tab, xa.inv.arity as i32));
    lemma_modify_app(bf, rx, 0, VarModView::Fill(all));
}

/// A value that occurs in a sequence has a first position.
pub proof fn lemma_first_pos_exists(v: Seq<Id>, id: Id, j: int)
    requires
        0 <= j < v.len(),
        v[j] == id,
    ensures
        exists|p: int| first_pos(v, id, p),
    decreases j,
{
    if exists|k: int| 0 <= k < j && v[k] == id {
        let k = choose|k: int| 0 <= k < j && v[k] == id;
        lemma_first_pos_exists(v, id, k);
    } else {
        assert(first_pos(v, id, j));
    }
}

/// An entry of `pairs_with(fa, xs)` comes from pairing `fa` with one of
/// `xs`.
pub proof fn lemma_pairs_with_member(fa: AppLam, xs: Seq<AppLam>, g: ProgramGraph, max_arity: usize, m: int) -> (j: int)
    requires
        0 <= m < pairs_with(fa, xs, g, max_arity).len(),
    ensures
        0 <= j < xs.len(),
        paired(fa, xs[j], g, max_arity) == Some(pairs_with(fa, xs, g, max_arity)[m]),
    decreases xs.len(),
{
    let r = pairs_with(fa, xs.drop_last(), g, max_arity);
    if m < r.len() {
        let j = lemma_pairs_with_member(fa, xs.drop_last(), g, max_arity, m);
        assert(xs.drop_last()[j] == xs[j]);
        j
    } else {
        (xs.len() - 1) as int
    }
}

/// An entry of `pairs_of(fs, xs)` comes from pairing one of `fs` with one
/// of `xs`.
pub proof fn lemma_pairs_of_member(fs: Seq<AppLam>, xs: Seq<AppLam>, g: ProgramGraph, max_arity: usize, m: int) -> (ij: (int, int))
    requires
        0 <= m < pairs_of(fs, xs, g, max_arity).len(),
    ensures
        0 <= ij.0 < fs.len(),
        0 <= ij.1 < xs.len(),
        paired(fs[ij.0], xs[ij.1], g, max_arity) == Some(pairs_of(fs, xs, g, max_arity)[m]),
    decreases fs.len(),
{
    let r = pairs_of(fs.drop_last(), xs, g, max_arity);
    if m < r.len() {
        let ij = lemma_pairs_of_member(fs.drop_last(), xs, g, max_arity, m);
        assert(fs.drop_last()[ij.0] == fs[ij.0]);
        ij
    } else {
        let j = lemma_pairs_with_member(fs.last(), xs, g, max_arity, m - r.len());
        ((fs.len() - 1) as int, j)
    }
}

/// An entry of `lam_views(bs)` comes from moving one of `bs` over the
/// binder.
pub proof fn lemma_lam_views_member(bs: Seq<AppLam>, g: ProgramGraph, m: int) -> (i: int)
    requires
        0 <= m < lam_views(bs, g).len(),
    ensures
        0 <= i < bs.len(),
        over_lam(bs[i], g) == Some(lam_views(bs, g)[m]),
    decreases bs.len(),
{
    let r = lam_views(bs.drop_last(), g);
    if m < r.len() {
        let i = lemma_lam_views_member(bs.drop_last(), g, m);
        assert(bs.drop_last()[i] == bs[i]);
        i
    } else {
        (bs.len() - 1) as int
    }
}

/// Where the search's steps keep meaning: every tree involved has small
/// variable indices, every pair of applams is of two bodies that refer to
/// nothing past their own arguments, and every applam moved over a binder
/// has arguments without free variables.
pub open spec fn steps_keep_meaning(amap: Map<Id, Vec<AppLam>>, g: ProgramGraph, max_arity: usize) -> bool {
    &&& max_arity < 500000
    &&& forall|t: Id| #[trigger] amap.contains_key(t) ==> vars_in_range(g.term(t as int), i32::MAX - 2000000)
    &&& forall|t: Id, k: int| #![trigger amap[t]@[k]] amap.contains_key(t) && 0 <= k < amap[t]@.len()
        ==> vars_in_range(g.term(amap[t]@[k].inv.body as int), i32::MAX - 2000000)
    &&& forall|t: Id, f: Id, x: Id, i: int, j: int| #![trigger g.nodes()[t as int], amap[f]@[i], amap[x]@[j]]
        amap.contains_key(t) && g.nodes()[t as int] == Lambda::App(f, x)
        && 0 <= i < amap[f]@.len() && 0 <= j < amap[x]@.len()
        && paired(amap[f]@[i], amap[x]@[j], g, max_arity) is Some
        ==> amap[f]@[i].inv.spec_valid(g) && amap[x]@[j].inv.spec_valid(g)
    &&& forall|t: Id, b: Id, i: int, k: int| #![trigger g.nodes()[t as int], amap[b]@[i].args@[k]]
        amap.contains_key(t) && g.nodes()[t as int] == Lambda::Lam(b)
        && 0 <= i < amap[b]@.len() && over_lam(amap[b]@[i], g) is Some && 0 <= k < amap[b]@[i].args@.len()
        ==> upward_refs(g.term(amap[b]@[i].args@[k] as int)).is_empty()
}

/// Every applam bubbled up into `(app f x)` stands for it, when those of
/// `f` and `x` stand for them and the steps keep meaning.
proof fn lemma_app_view_sound(
    amap: Map<Id, Vec<AppLam>>,
    g: ProgramGraph,
    max_arity: usize,
    t: Id,
    f: Id,
    x: Id,
    m: int,
)
    requires
        g.wf(),
        t < g.nodes().len(),
        g.nodes()[t as int] == Lambda::App(f, x),
        steps_keep_meaning(amap, g, max_arity),
        amap.contains_key(t),
        amap.contains_key(f),
        amap.contains_key(x),
        forall|k: int| 0 <= k < amap[f]@.len() ==> #[trigger] applam_term(amap[f]@[k], g) == g.term(f as int),
        forall|k: int| 0 <= k < amap[x]@.len() ==> #[trigger] applam_term(amap[x]@[k], g) == g.term(x as int),
        forall|k: int| 0 <= k < amap[f]@.len() ==> (#[trigger] amap[f]@[k]).inv.arity == amap[f]@[k].args@.len() && amap[f]@[k].inv.arity <= max_arity,
        forall|k: int| 0 <= k < amap[x]@.len() ==> (#[trigger] amap[x]@[k]).inv.arity == amap[x]@[k].args@.len() && amap[x]@[k].inv.arity <= max_arity,
        0 <= m < app_views(f, x, amap[f]@, amap[x]@, g, max_arity).len(),
    ensures
        view_term(app_views(f, x, amap[f]@, amap[x]@, g, max_arity)[m], g) == g.term(t as int),
{
    let fs = amap[f]@;
    let xs = amap[x]@;
    let lm = fs.map_values(|a: AppLam| left_bubbled(a, x, g));
    let rm = xs.map_values(|a: AppLam| right_bubbled(a, f, g));
    let cv = app_views(f, x, fs, xs, g, max_arity);
    assert(cv == lm + rm + pairs_of(fs, xs, g, max_arity));
    let view = cv[m];
    if m < lm.len() {
        assert(view == left_bubbled(fs[m], x, g));
        assert(applam_term(fs[m], g) == g.term(f as int));
        assert(fs[m].inv.arity <= max_arity);
        lemma_vars_in_range_mono(g.term(x as int), i32::MAX - 2000000, i32::MAX - fs[m].inv.arity - 1);
        law_left_bubbled(g, fs[m], t, f, x);
    } else if m < lm.len() + rm.len() {
        let q = m - lm.len();
        assert(view == right_bubbled(xs[q], f, g));
        assert(applam_term(xs[q], g) == g.term(x as int));
        assert(xs[q].inv.arity <= max_arity);
        lemma_vars_in_range_mono(g.term(f as int), i32::MAX - 2000000, i32::MAX - xs[q].inv.arity - 1);
        law_right_bubbled(g, xs[q], t, f, x);
    } else {
        let q = m - lm.len() - rm.len();
        let (i, j) = lemma_pairs_of_member(fs, xs, g, max_arity, q);
        assert(view == pairs_of(fs, xs, g, max_arity)[q]);
        let fa = fs[i];
        let xa = xs[j];
        assert(applam_term(fa, g) == g.term(f as int));
        assert(applam_term(xa, g) == g.term(x as int));
        assert(fa.inv.arity <= max_arity && xa.inv.arity <= max_arity);
        assert(fa.inv.spec_valid(g) && xa.inv.spec_valid(g));
        assert(vars_in_range(g.term(fa.inv.body as int), i32::MAX - 2000000));
        assert(vars_in_range(g.term(xa.inv.body as int), i32::MAX - 2000000));
        if args_shared(fa.args@, xa.args@) {
            law_paired_merged(g, fa, xa, t, f, x, max_arity);
        } else {
            lemma_vars_in_range_mono(g.term(fa.inv.body as int), i32::MAX - 2000000, i32::MAX - fa.inv.arity - xa.inv.arity - 1);
            lemma_vars_in_range_mono(g.term(xa.inv.body as int), i32::MAX - 2000000, i32::MAX - fa.inv.arity - xa.inv.arity - 1);
            law_paired_disjoint(g, fa, xa, t, f, x, max_arity);
        }
    }
}

/// Every applam moved up into `(lam b)` stands for it, when those of `b`
/// stand for `b` and the steps keep meaning.
proof fn lemma_lam_view_sound(amap: Map<Id, Vec<AppLam>>, g: ProgramGraph, max_arity: usize, t: Id, b: Id, m: int)
    requires
        g.wf(),
        t < g.nodes().len(),
        g.nodes()[t as int] == Lambda::Lam(b),
        steps_keep_meaning(amap, g, max_arity),
        amap.contains_key(t),
        amap.contains_key(b),
        forall|k: int| 0 <= k < amap[b]@.len() ==> #[trigger] applam_term(amap[b]@[k], g) == g.term(b as int),
        forall|k: int| 0 <= k < amap[b]@.len() ==> (#[trigger] amap[b]@[k]).inv.arity == amap[b]@[k].args@.len() && amap[b]@[k].inv.arity <= max_arity,
        0 <= m < lam_views(amap[b]@, g).len(),
    ensures
        view_term(lam_views(amap[b]@, g)[m], g) == g.term(t as int),
{
    let bs = amap[b]@;
    let i = lemma_lam_views_member(bs, g, m);
    let ba = bs[i];
    assert(applam_term(ba, g) == g.term(b as int));
    assert(ba.inv.arity <= max_arity);
    assert(vars_in_range(g.term(ba.inv.body as int), i32::MAX - 2000000));
    lemma_vars_in_range_mono(g.term(ba.inv.body as int), i32::MAX - 2000000, i32::MAX - 5);
    assert forall|q: int| 0 <= q < ba.args@.len() implies (#[trigger] upward_refs(g.term(ba.args@[q] as int))).is_empty() by {
        assert(upward_refs(g.term(amap[b]@[i].args@[q] as int)).is_empty());
    }
    law_over_lam(g, ba, t, b);
}

/// Every applam the search leaves at node `t` stands for `t`, where the
/// steps that built it keep meaning.
proof fn lemma_node_applams_sound(
    amap: Map<Id, Vec<AppLam>>,
    bmap: Map<Id, crate::invention::BestInventions>,
    g: ProgramGraph,
    max_arity: usize,
    var0: Id,
    t: Id,
)
    requires
        g.wf(),
        search_result(amap, bmap, var0, g, max_arity),
        views_hold(amap, g, max_arity),
        steps_keep_meaning(amap, g, max_arity),
        amap.contains_key(t),
    ensures
        forall|k: int| 0 <= k < amap[t]@.len() ==> #[trigger] applam_term(amap[t]@[k], g) == g.term(t as int),
    decreases t,
{
    g.lemma_wf();
    let v = amap[t]@;
    assert(node_result_ok(t, v, bmap[t], var0, g, max_arity, amap.dom()));
    let cv = child_views(t, amap, g, max_arity);
    assert(applams_are(v, 1, g, cv));
    let n = g.nodes()[t as int];
    match n {
        Lambda::App(f, x) => {
            assert(n.children()[0] == f && n.children()[1] == x);
            lemma_node_applams_sound(amap, bmap, g, max_arity, var0, f);
            lemma_node_applams_sound(amap, bmap, g, max_arity, var0, x);
            assert(node_result_ok(f, amap[f]@, bmap[f], var0, g, max_arity, amap.dom()));
            assert(node_result_ok(x, amap[x]@, bmap[x], var0, g, max_arity, amap.dom()));
            assert forall|k: int| 0 <= k < amap[f]@.len() implies (#[trigger] amap[f]@[k]).inv.arity == amap[f]@[k].args@.len()
                && amap[f]@[k].inv.arity <= max_arity by {
                assert(crate::inversion::applam_ok(amap[f]@[k], g.nodes().len(), max_arity, amap.dom()));
            }
            assert forall|k: int| 0 <= k < amap[x]@.len() implies (#[trigger] amap[x]@[k]).inv.arity == amap[x]@[k].args@.len()
                && amap[x]@[k].inv.arity <= max_arity by {
                assert(crate::inversion::applam_ok(amap[x]@[k], g.nodes().len(), max_arity, amap.dom()));
            }
        },
        Lambda::Lam(b) => {
            assert(n.children()[0] == b);
            lemma_node_applams_sound(amap, bmap, g, max_arity, var0, b);
            assert(node_result_ok(b, amap[b]@, bmap[b], var0, g, max_arity, amap.dom()));
            assert forall|k: int| 0 <= k < amap[b]@.len() implies (#[trigger] amap[b]@[k]).inv.arity == amap[b]@[k].args@.len()
                && amap[b]@[k].inv.arity <= max_arity by {
                assert(crate::inversion::applam_ok(amap[b]@[k], g.nodes().len(), max_arity, amap.dom()));
            }
        },
        _ => {},
    }
    assert forall|k: int| 0 <= k < v.len() implies #[trigger] applam_term(v[k], g) == g.term(t as int) by {
        if k == 0 {
            assert(v[0].args@ =~= seq![t]);
            law_identity_applam(g, var0, t);
        } else {
            let view = cv[k - 1];
            assert(applam_is(v[1 + (k - 1)], g, view.0, view.1));
            assert(applam_term(v[k], g) == view_term(view, g));
            match n {
                Lambda::App(f, x) => {
                    lemma_app_view_sound(amap, g, max_arity, t, f, x, k - 1);
                },
                Lambda::Lam(b) => {
                    lemma_lam_view_sound(amap, g, max_arity, t, b, k - 1);
                },
                _ => {},
            }
        }
    }
}

/// The search's central law: every applam left at a node, with its
/// arguments substituted into its body and the other free variables lowered
/// by its arity, stands for the node's tree, where the steps that built the
/// applams keep meaning (`steps_keep_meaning`).
pub proof fn law_applams_stand_for_their_nodes(
    amap: Map<Id, Vec<AppLam>>,
    bmap: Map<Id, crate::invention::BestInventions>,
    g: ProgramGraph,
    max_arity: usize,
    var0: Id,
)
    requires
        g.wf(),
        search_result(amap, bmap, var0, g, max_arity),
        views_hold(amap, g, max_arity),
        steps_keep_meaning(amap, g, max_arity),
    ensures
        forall|t: Id, k: int| #![trigger amap[t]@[k]] amap.contains_key(t) && 0 <= k < amap[t]@.len()
            ==> applam_term(amap[t]@[k], g) == g.term(t as int),
{
    assert forall|t: Id, k: int| #![trigger amap[t]@[k]] amap.contains_key(t) && 0 <= k < amap[t]@.len()
        implies applam_term(amap[t]@[k], g) == g.term(t as int) by {
        lemma_node_applams_sound(amap, bmap, g, max_arity, var0, t);
    }
}

} // verus!
