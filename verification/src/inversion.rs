//! The search: for every node of the corpus, children first, the applams
//! that rewrite it as an invention applied to arguments, and the best cost of
//! every invention at it.

use std::collections::HashMap;
use vstd::prelude::*;
use crate::beta::{applam_term, law_applams_stand_for_their_nodes, steps_keep_meaning};
use crate::graph::ProgramGraph;
use crate::invention::{narrow_beam, AppLam, BestInventions, Invention, InventionCosts};
use crate::lambda::{clone_ids, Id, Lambda, Term, COST_NONTERMINAL, COST_TERMINAL};
use crate::order::ordered;
use crate::shift::{
    all_finished, cache_ok, extends, lemma_cache_ok_extends, lemma_extends_term, lemma_extends_trans,
    recursive_var_mod, shift, VarMod, VarModCache, VarModView,
};

verus! {

broadcast use vstd::std_specs::hash::group_hash_axioms;

/// Memos of the shifts by each arity and of the moves over a binder for each
/// arity; entry `a - 1` serves arity `a`.
pub struct Caches {
    pub shift: Vec<VarModCache>,
    pub bubble_lam: Vec<VarModCache>,
}

impl Caches {
    /// One memo per arity up to `max_arity`, each finished and right for `g`.
    pub open spec fn ok(&self, g: ProgramGraph, max_arity: usize) -> bool {
        &&& self.shift@.len() == max_arity
        &&& self.bubble_lam@.len() == max_arity
        &&& forall|a: int| 0 <= a < max_arity ==> {
            &&& cache_ok(g, VarModView::Shift((a + 1) as i32), (#[trigger] self.shift@[a])@)
            &&& all_finished(self.shift@[a]@)
        }
        &&& forall|a: int| 0 <= a < max_arity ==> {
            &&& cache_ok(g, VarModView::OverLambda((a + 1) as i32), (#[trigger] self.bubble_lam@[a])@)
            &&& all_finished(self.bubble_lam@[a]@)
        }
    }

    /// Empty memos for arities `1..=max_arity`.
    pub fn new(max_arity: usize, Ghost(g): Ghost<ProgramGraph>) -> (c: Caches)
        ensures
            c.ok(g, max_arity),
    {
        let mut shift: Vec<VarModCache> = Vec::new();
        let mut bubble_lam: Vec<VarModCache> = Vec::new();
        let mut i: usize = 0;
        while i < max_arity
            invariant
                i <= max_arity,
                shift@.len() == i,
                bubble_lam@.len() == i,
                forall|a: int| 0 <= a < i ==> (#[trigger] shift@[a])@ == Map::<u128, Option<Id>>::empty(),
                forall|a: int| 0 <= a < i ==> (#[trigger] bubble_lam@[a])@ == Map::<u128, Option<Id>>::empty(),
            decreases max_arity - i,
        {
            shift.push(HashMap::new());
            bubble_lam.push(HashMap::new());
            i = i + 1;
        }
        Caches { shift, bubble_lam }
    }

    pub proof fn lemma_extends(&self, a: ProgramGraph, b: ProgramGraph, max_arity: usize)
        requires
            a.wf(),
            b.wf(),
            extends(a, b),
            self.ok(a, max_arity),
        ensures
            self.ok(b, max_arity),
    {
        assert forall|i: int| 0 <= i < max_arity implies {
            &&& cache_ok(b, VarModView::Shift((i + 1) as i32), (#[trigger] self.shift@[i])@)
            &&& all_finished(self.shift@[i]@)
        } by {
            lemma_cache_ok_extends(a, b, VarModView::Shift((i + 1) as i32), self.shift@[i]@);
        }
        assert forall|i: int| 0 <= i < max_arity implies {
            &&& cache_ok(b, VarModView::OverLambda((i + 1) as i32), (#[trigger] self.bubble_lam@[i])@)
            &&& all_finished(self.bubble_lam@[i]@)
        } by {
            lemma_cache_ok_extends(a, b, VarModView::OverLambda((i + 1) as i32), self.bubble_lam@[i]@);
        }
    }

    /// Shifts node `e` by `arity`, using that arity's memo.
    pub fn shift_by(&mut self, e: Id, arity: usize, egraph: &mut ProgramGraph, Ghost(max_arity): Ghost<usize>) -> (r: Id)
        requires
            old(egraph).wf(),
            old(self).ok(*old(egraph), max_arity),
            1 <= arity <= max_arity,
            e < old(egraph).nodes().len(),
        ensures
            final(egraph).wf(),
            extends(*old(egraph), *final(egraph)),
            final(self).ok(*final(egraph), max_arity),
            r < final(egraph).nodes().len(),
            final(egraph).term(r as int) == crate::shift::shift_term(old(egraph).term(e as int), arity as i32),
    {
        let ghost c0 = *self;
        let mut cache: VarModCache = HashMap::new();
        self.shift.set_and_swap(arity - 1, &mut cache);
        assert(cache@ == c0.shift@[arity - 1]@);
        let r = shift(e, arity as i32, egraph, &mut cache).unwrap();
        let ghost c1 = *self;
        proof {
            c0.lemma_extends(*old(egraph), *egraph, max_arity);
        }
        self.shift.set_and_swap(arity - 1, &mut cache);
        proof {
            assert forall|i: int| 0 <= i < max_arity implies {
                &&& cache_ok(*egraph, VarModView::Shift((i + 1) as i32), (#[trigger] self.shift@[i])@)
                &&& all_finished(self.shift@[i]@)
            } by {
                if i != arity - 1 {
                    assert(self.shift@[i] == c0.shift@[i]);
                }
            }
            assert forall|i: int| 0 <= i < max_arity implies {
                &&& cache_ok(*egraph, VarModView::OverLambda((i + 1) as i32), (#[trigger] self.bubble_lam@[i])@)
                &&& all_finished(self.bubble_lam@[i]@)
            } by {
                assert(self.bubble_lam@[i] == c0.bubble_lam@[i]);
            }
        }
        r
    }

    /// Moves the body `e` of an applam of the given arity over one more
    /// binder, using that arity's memo.
    pub fn over_lambda(&mut self, e: Id, arity: usize, egraph: &mut ProgramGraph, Ghost(max_arity): Ghost<usize>) -> (r: Id)
        requires
            old(egraph).wf(),
            old(self).ok(*old(egraph), max_arity),
            1 <= arity <= max_arity,
            e < old(egraph).nodes().len(),
        ensures
            final(egraph).wf(),
            extends(*old(egraph), *final(egraph)),
            final(self).ok(*final(egraph), max_arity),
            r < final(egraph).nodes().len(),
            final(egraph).term(r as int) == crate::shift::modify_term(old(egraph).term(e as int), 0, VarModView::OverLambda(arity as i32)),
    {
        let ghost c0 = *self;
        let mut cache: VarModCache = HashMap::new();
        self.bubble_lam.set_and_swap(arity - 1, &mut cache);
        assert(cache@ == c0.bubble_lam@[arity - 1]@);
        let vm = VarMod::OverLambda { arity: arity as i32 };
        let r = recursive_var_mod(&vm, e, egraph, &mut cache).unwrap();
        proof {
            c0.lemma_extends(*old(egraph), *egraph, max_arity);
        }
        self.bubble_lam.set_and_swap(arity - 1, &mut cache);
        proof {
            assert forall|i: int| 0 <= i < max_arity implies {
                &&& cache_ok(*egraph, VarModView::Shift((i + 1) as i32), (#[trigger] self.shift@[i])@)
                &&& all_finished(self.shift@[i]@)
            } by {
                assert(self.shift@[i] == c0.shift@[i]);
            }
            assert forall|i: int| 0 <= i < max_arity implies {
                &&& cache_ok(*egraph, VarModView::OverLambda((i + 1) as i32), (#[trigger] self.bubble_lam@[i])@)
                &&& all_finished(self.bubble_lam@[i]@)
            } by {
                if i != arity - 1 {
                    assert(self.bubble_lam@[i] == c0.bubble_lam@[i]);
                }
            }
        }
        r
    }
}

/// A well-formed applam: its arity is its number of arguments, between 1 and
/// `max_arity`; its body is a node; its arguments are nodes already processed.
pub open spec fn applam_ok(a: AppLam, n: nat, max_arity: usize, done: Set<Id>) -> bool {
    &&& 1 <= a.inv.arity <= max_arity
    &&& a.inv.arity == a.args@.len()
    &&& a.inv.body < n
    &&& forall|i: int| 0 <= i < a.args@.len() ==> done.contains(#[trigger] a.args@[i])
}

/// All applams in `v` are well formed.
pub open spec fn applams_ok(v: Seq<AppLam>, n: nat, max_arity: usize, done: Set<Id>) -> bool {
    forall|i: int| 0 <= i < v.len() ==> applam_ok(#[trigger] v[i], n, max_arity, done)
}

pub proof fn lemma_applams_ok_mono(v: Seq<AppLam>, n: nat, m: nat, max_arity: usize, d1: Set<Id>, d2: Set<Id>)
    requires
        applams_ok(v, n, max_arity, d1),
        n <= m,
        d1.subset_of(d2),
    ensures
        applams_ok(v, m, max_arity, d2),
{
    assert forall|i: int| 0 <= i < v.len() implies applam_ok(#[trigger] v[i], m, max_arity, d2) by {
        assert(applam_ok(v[i], n, max_arity, d1));
        assert forall|j: int| 0 <= j < v[i].args@.len() implies d2.contains(#[trigger] v[i].args@[j]) by {
            assert(d1.contains(v[i].args@[j]));
        }
    }
}

/// The position of `id` in `v`, if present.
fn position(v: &Vec<Id>, id: Id) -> (r: Option<usize>)
    ensures
        match r {
            Some(i) => first_pos(v@, id, i as int),
            None => !v@.contains(id),
        },
{
    let mut i: usize = 0;
    while i < v.len()
        invariant
            i <= v@.len(),
            forall|j: int| 0 <= j < i ==> v@[j] != id,
        decreases v@.len() - i,
    {
        if v[i] == id {
            return Some(i);
        }
        i = i + 1;
    }
    None
}

/// Whether `a` and `b` share an element.
fn any_shared(a: &Vec<Id>, b: &Vec<Id>) -> (r: bool)
    ensures
        r == exists|i: int| 0 <= i < a@.len() && b@.contains(#[trigger] a@[i]),
{
    let mut i: usize = 0;
    while i < a.len()
        invariant
            i <= a@.len(),
            forall|j: int| 0 <= j < i ==> !b@.contains(#[trigger] a@[j]),
        decreases a@.len() - i,
    {
        if position(b, a[i]).is_some() {
            return true;
        }
        i = i + 1;
    }
    false
}

/// Adds an application node `(app f x)` of two stored nodes.
fn add_app(egraph: &mut ProgramGraph, f: Id, x: Id) -> (id: Id)
    requires
        old(egraph).wf(),
        f < old(egraph).nodes().len(),
        x < old(egraph).nodes().len(),
    ensures
        final(egraph).wf(),
        extends(*old(egraph), *final(egraph)),
        id < final(egraph).nodes().len(),
        final(egraph).term(id as int) == Term::App(Box::new(old(egraph).term(f as int)), Box::new(old(egraph).term(x as int))),
{
    let ghost g0 = *egraph;
    proof {
        egraph.lemma_wf();
        let n = Lambda::App(f, x);
        assert(n.children()[0] == f);
        assert(n.children()[1] == x);
        crate::graph::lemma_children_before_push(g0.nodes(), n);
        crate::graph::lemma_term_prefix(g0.nodes(), g0.nodes().push(n), f as int);
        crate::graph::lemma_term_prefix(g0.nodes(), g0.nodes().push(n), x as int);
    }
    let id = egraph.add(Lambda::App(f, x));
    proof {
        assert(extends(g0, *egraph));
    }
    id
}

/// Adds an abstraction node `(lam b)` over a stored node.
fn add_lam(egraph: &mut ProgramGraph, b: Id) -> (id: Id)
    requires
        old(egraph).wf(),
        b < old(egraph).nodes().len(),
    ensures
        final(egraph).wf(),
        extends(*old(egraph), *final(egraph)),
        id < final(egraph).nodes().len(),
        final(egraph).term(id as int) == Term::Lam(Box::new(old(egraph).term(b as int))),
{
    let ghost g0 = *egraph;
    proof {
        egraph.lemma_wf();
        let n = Lambda::Lam(b);
        assert(n.children()[0] == b);
        crate::graph::lemma_children_before_push(g0.nodes(), n);
        crate::graph::lemma_term_prefix(g0.nodes(), g0.nodes().push(n), b as int);
    }
    let id = egraph.add(Lambda::Lam(b));
    proof {
        assert(extends(g0, *egraph));
    }
    id
}

/// `i` is the first position of `id` in `v`.
pub open spec fn first_pos(v: Seq<Id>, id: Id, i: int) -> bool {
    &&& 0 <= i < v.len()
    &&& v[i] == id
    &&& forall|j: int| 0 <= j < i ==> v[j] != id
}

/// How many of the first `k` entries of `xargs` also occur in `fargs`.
pub open spec fn shared_before(fargs: Seq<Id>, xargs: Seq<Id>, k: int) -> int
    decreases k,
{
    if k <= 0 {
        0
    } else {
        shared_before(fargs, xargs, k - 1) + if fargs.contains(xargs[k - 1]) { 1int } else { 0int }
    }
}

/// How far a reference to argument `k` of the x applam moves when it is
/// merged with the f applam: onto the first matching f argument, or past the
/// f arguments and the x arguments kept before it.
pub open spec fn reindex_entry(fargs: Seq<Id>, xargs: Seq<Id>, k: int) -> i32 {
    if fargs.contains(xargs[k]) {
        ((choose|p: int| first_pos(fargs, xargs[k], p)) - k) as i32
    } else {
        (fargs.len() - shared_before(fargs, xargs, k)) as i32
    }
}

/// The move of every argument of the x applam.
pub open spec fn reindex_table(fargs: Seq<Id>, xargs: Seq<Id>) -> Seq<i32> {
    Seq::new(xargs.len(), |k: int| reindex_entry(fargs, xargs, k))
}

/// The arguments of `xargs` that do not occur in `fargs`, in order.
pub open spec fn kept_args(fargs: Seq<Id>, xargs: Seq<Id>) -> Seq<Id>
    decreases xargs.len(),
{
    if xargs.len() == 0 {
        Seq::empty()
    } else {
        let r = kept_args(fargs, xargs.drop_last());
        if fargs.contains(xargs.last()) {
            r
        } else {
            r.push(xargs.last())
        }
    }
}

/// The two applams share an argument.
pub open spec fn args_shared(fargs: Seq<Id>, xargs: Seq<Id>) -> bool {
    exists|i: int| 0 <= i < fargs.len() && xargs.contains(#[trigger] fargs[i])
}

/// The body and arguments of the applam for `(app f x)` built from applam
/// `fa` of `f` and applam `xa` of `x`: shared arguments are merged, the x body
/// is re-indexed (or shifted past the f arguments when nothing is shared);
/// none when the arguments would exceed `max_arity`.
pub open spec fn paired(fa: AppLam, xa: AppLam, g: ProgramGraph, max_arity: usize) -> Option<(Term, Seq<Id>)> {
    let fargs = fa.args@;
    let xargs = xa.args@;
    let xbody = if args_shared(fargs, xargs) {
        crate::shift::modify_term(g.term(xa.inv.body as int), 0, VarModView::Reindex(reindex_table(fargs, xargs), xa.inv.arity as i32))
    } else {
        crate::shift::shift_term(g.term(xa.inv.body as int), fa.inv.arity as i32)
    };
    let kept = if args_shared(fargs, xargs) {
        kept_args(fargs, xargs)
    } else {
        xargs
    };
    if fa.inv.arity + kept.len() > max_arity {
        None
    } else {
        Some((Term::App(Box::new(g.term(fa.inv.body as int)), Box::new(xbody)), fargs + kept))
    }
}

/// Applam `a` of graph `g` has body tree `t` and arguments `args`.
pub open spec fn applam_is(a: AppLam, g: ProgramGraph, t: Term, args: Seq<Id>) -> bool {
    &&& a.inv.body < g.nodes().len()
    &&& g.term(a.inv.body as int) == t
    &&& a.args@ == args
    &&& a.inv.arity == args.len()
}

/// The applam for `(app f x)` made from an applam of `f` and one of `x`,
/// merging the arguments they share; none when it would exceed `max_arity`.
fn pair_applam(
    f_applam: &AppLam,
    x_applam: &AppLam,
    max_arity: usize,
    egraph: &mut ProgramGraph,
    caches: &mut Caches,
    Ghost(done): Ghost<Set<Id>>,
) -> (r: Option<AppLam>)
    requires
        old(egraph).wf(),
        old(caches).ok(*old(egraph), max_arity),
        max_arity <= i32::MAX,
        applam_ok(*f_applam, old(egraph).nodes().len(), max_arity, done),
        applam_ok(*x_applam, old(egraph).nodes().len(), max_arity, done),
    ensures
        final(egraph).wf(),
        extends(*old(egraph), *final(egraph)),
        final(caches).ok(*final(egraph), max_arity),
        r matches Some(a) ==> applam_ok(a, final(egraph).nodes().len(), max_arity, done),
        match paired(*f_applam, *x_applam, *old(egraph), max_arity) {
            Some(p) => r matches Some(a) && applam_is(a, *final(egraph), p.0, p.1),
            None => r is None,
        },
{
    let ghost g0 = *egraph;
    let ghost fargs = f_applam.args@;
    let ghost xargs = x_applam.args@;
    let f_arity = f_applam.inv.arity;
    let shared = any_shared(&f_applam.args, &x_applam.args);
    let (shifted_x_applam_body, new_x_applam_args) = if shared {
        // x_shift_table[i] says how far a reference to argument `i` of the
        // x applam moves: onto the matching f argument, or past the f
        // arguments and the x arguments kept so far.
        let mut x_shift_table: Vec<i32> = Vec::new();
        let mut new_x_args: Vec<Id> = Vec::new();
        let mut shift_rest_by: i32 = f_arity as i32;
        let mut x_idx: usize = 0;
        while x_idx < x_applam.args.len()
            invariant
                x_idx <= xargs.len(),
                xargs == x_applam.args@,
                fargs == f_applam.args@,
                1 <= f_arity <= max_arity <= i32::MAX,
                fargs.len() == f_arity,
                xargs.len() <= max_arity,
                0 <= shared_before(fargs, xargs, x_idx as int) <= x_idx,
                shift_rest_by == f_arity - shared_before(fargs, xargs, x_idx as int),
                x_shift_table@ == reindex_table(fargs, xargs).take(x_idx as int),
                new_x_args@ == kept_args(fargs, xargs.take(x_idx as int)),
                new_x_args@.len() <= x_idx,
                forall|j: int| 0 <= j < new_x_args@.len() ==> done.contains(#[trigger] new_x_args@[j]),
                forall|j: int| 0 <= j < x_applam.args@.len() ==> done.contains(#[trigger] x_applam.args@[j]),
            decreases x_applam.args@.len() - x_idx,
        {
            let xarg = x_applam.args[x_idx];
            let ghost k = x_idx as int;
            proof {
                assert(xargs.take(k + 1).drop_last() =~= xargs.take(k));
                assert(xargs.take(k + 1).last() == xarg);
            }
            match position(&f_applam.args, xarg) {
                Some(f_idx) => {
                    proof {
                        let p = choose|p: int| first_pos(fargs, xargs[k], p);
                        assert(first_pos(fargs, xargs[k], f_idx as int));
                        if p < f_idx {
                            assert(fargs[p] != xarg);
                        } else if p > f_idx {
                            assert(fargs[f_idx as int] != xarg);
                        }
                        assert(fargs.contains(xargs[k]));
                        assert(reindex_entry(fargs, xargs, k) == (f_idx - k) as i32);
                    }
                    x_shift_table.push((f_idx as i32).wrapping_sub(x_idx as i32));
                    shift_rest_by = shift_rest_by.wrapping_sub(1);
                },
                None => {
                    proof {
                        assert(reindex_entry(fargs, xargs, k) == shift_rest_by);
                    }
                    x_shift_table.push(shift_rest_by);
                    new_x_args.push(xarg);
                },
            }
            proof {
                assert(x_shift_table@ =~= reindex_table(fargs, xargs).take(k + 1));
            }
            x_idx = x_idx + 1;
        }
        proof {
            assert(xargs.take(xargs.len() as int) =~= xargs);
            assert(x_shift_table@ =~= reindex_table(fargs, xargs));
        }
        let vm = VarMod::Reindex { shift_table: x_shift_table, arity: x_applam.inv.arity as i32 };
        let mut fresh: VarModCache = HashMap::new();
        let body = recursive_var_mod(&vm, x_applam.inv.body, egraph, &mut fresh).unwrap();
        proof {
            caches.lemma_extends(g0, *egraph, max_arity);
        }
        (body, new_x_args)
    } else {
        let body = caches.shift_by(x_applam.inv.body, f_arity, egraph, Ghost(max_arity));
        (body, clone_ids(&x_applam.args))
    };
    let ghost kept = new_x_applam_args@;
    if f_arity + new_x_applam_args.len() > max_arity {
        return None;
    }
    let g1 = Ghost(*egraph);
    let new_applam_body = add_app(egraph, f_applam.inv.body, shifted_x_applam_body);
    proof {
        caches.lemma_extends(g1@, *egraph, max_arity);
        lemma_extends_trans(g0, g1@, *egraph);
        lemma_extends_term(g0, g1@, f_applam.inv.body as int);
        lemma_extends_term(g0, g1@, x_applam.inv.body as int);
    }
    let mut new_applam_args = clone_ids(&f_applam.args);
    let mut i: usize = 0;
    while i < new_x_applam_args.len()
        invariant
            i <= new_x_applam_args@.len(),
            new_applam_args@ == fargs + new_x_applam_args@.take(i as int),
            fargs == f_applam.args@,
            fargs.len() == f_arity,
            forall|j: int| 0 <= j < new_x_applam_args@.len() ==> done.contains(#[trigger] new_x_applam_args@[j]),
            forall|j: int| 0 <= j < new_applam_args@.len() ==> done.contains(#[trigger] new_applam_args@[j]),
        decreases new_x_applam_args@.len() - i,
    {
        new_applam_args.push(new_x_applam_args[i]);
        proof {
            assert(new_x_applam_args@.take(i + 1) =~= new_x_applam_args@.take(i as int).push(new_x_applam_args@[i as int]));
        }
        i = i + 1;
    }
    proof {
        assert(new_x_applam_args@.take(new_x_applam_args@.len() as int) =~= new_x_applam_args@);
    }
    Some(AppLam::new(new_applam_body, new_applam_args))
}

/// Applam `fa` of `f` bubbled up over `(app f x)`: `(app body shift(x))`.
pub open spec fn left_bubbled(fa: AppLam, x: Id, g: ProgramGraph) -> (Term, Seq<Id>) {
    (Term::App(Box::new(g.term(fa.inv.body as int)), Box::new(crate::shift::shift_term(g.term(x as int), fa.inv.arity as i32))), fa.args@)
}

/// Applam `xa` of `x` bubbled up over `(app f x)`: `(app shift(f) body)`.
pub open spec fn right_bubbled(xa: AppLam, f: Id, g: ProgramGraph) -> (Term, Seq<Id>) {
    (Term::App(Box::new(crate::shift::shift_term(g.term(f as int), xa.inv.arity as i32)), Box::new(g.term(xa.inv.body as int))), xa.args@)
}

/// The applams made from `fa` and each of `xs`, in order.
pub open spec fn pairs_with(fa: AppLam, xs: Seq<AppLam>, g: ProgramGraph, max_arity: usize) -> Seq<(Term, Seq<Id>)>
    decreases xs.len(),
{
    if xs.len() == 0 {
        Seq::empty()
    } else {
        let r = pairs_with(fa, xs.drop_last(), g, max_arity);
        match paired(fa, xs.last(), g, max_arity) {
            Some(p) => r.push(p),
            None => r,
        }
    }
}

/// The applams made from each of `fs` with each of `xs`, `fs` major.
pub open spec fn pairs_of(fs: Seq<AppLam>, xs: Seq<AppLam>, g: ProgramGraph, max_arity: usize) -> Seq<(Term, Seq<Id>)>
    decreases fs.len(),
{
    if fs.len() == 0 {
        Seq::empty()
    } else {
        pairs_of(fs.drop_last(), xs, g, max_arity) + pairs_with(fs.last(), xs, g, max_arity)
    }
}

/// The applams of `(app f x)` from the applams `fs` of `f` and `xs` of `x`:
/// those of `f` bubbled up, those of `x` bubbled up, then the pairs.
pub open spec fn app_views(f: Id, x: Id, fs: Seq<AppLam>, xs: Seq<AppLam>, g: ProgramGraph, max_arity: usize) -> Seq<(Term, Seq<Id>)> {
    fs.map_values(|a: AppLam| left_bubbled(a, x, g)) + xs.map_values(|a: AppLam| right_bubbled(a, f, g)) + pairs_of(fs, xs, g, max_arity)
}

/// From position `start` on, `v` holds applams with the bodies and arguments
/// `views`, and nothing else.
pub open spec fn applams_are(v: Seq<AppLam>, start: int, g: ProgramGraph, views: Seq<(Term, Seq<Id>)>) -> bool {
    &&& v.len() == start + views.len()
    &&& forall|k: int| 0 <= k < views.len() ==> applam_is(#[trigger] v[start + k], g, views[k].0, views[k].1)
}

pub proof fn lemma_applams_are_extends(v: Seq<AppLam>, start: int, a: ProgramGraph, b: ProgramGraph, views: Seq<(Term, Seq<Id>)>)
    requires
        a.wf(),
        b.wf(),
        extends(a, b),
        applams_are(v, start, a, views),
    ensures
        applams_are(v, start, b, views),
{
    assert forall|k: int| 0 <= k < views.len() implies applam_is(#[trigger] v[start + k], b, views[k].0, views[k].1) by {
        assert(applam_is(v[start + k], a, views[k].0, views[k].1));
        lemma_extends_term(a, b, v[start + k].inv.body as int);
    }
}

pub proof fn lemma_paired_extends(fa: AppLam, xa: AppLam, a: ProgramGraph, b: ProgramGraph, max_arity: usize)
    requires
        a.wf(),
        b.wf(),
        extends(a, b),
        fa.inv.body < a.nodes().len(),
        xa.inv.body < a.nodes().len(),
    ensures
        paired(fa, xa, a, max_arity) == paired(fa, xa, b, max_arity),
{
    lemma_extends_term(a, b, fa.inv.body as int);
    lemma_extends_term(a, b, xa.inv.body as int);
}

/// The applams of `(app f x)`: an applam of `f` or of `x` bubbled up over the
/// application, and every pair of them combined.
fn app_applams(
    applams: &mut Vec<AppLam>,
    f: Id,
    x: Id,
    f_applams: &Vec<AppLam>,
    x_applams: &Vec<AppLam>,
    max_arity: usize,
    egraph: &mut ProgramGraph,
    caches: &mut Caches,
    Ghost(done): Ghost<Set<Id>>,
)
    requires
        old(egraph).wf(),
        old(caches).ok(*old(egraph), max_arity),
        max_arity <= i32::MAX,
        f < old(egraph).nodes().len(),
        x < old(egraph).nodes().len(),
        applams_ok(f_applams@, old(egraph).nodes().len(), max_arity, done),
        applams_ok(x_applams@, old(egraph).nodes().len(), max_arity, done),
        applams_ok(old(applams)@, old(egraph).nodes().len(), max_arity, done),
    ensures
        final(egraph).wf(),
        extends(*old(egraph), *final(egraph)),
        final(caches).ok(*final(egraph), max_arity),
        applams_ok(final(applams)@, final(egraph).nodes().len(), max_arity, done),
        forall|i: int| 0 <= i < old(applams)@.len() ==> #[trigger] final(applams)@[i] == old(applams)@[i],
        applams_are(final(applams)@, old(applams)@.len() as int, *final(egraph),
            app_views(f, x, f_applams@, x_applams@, *old(egraph), max_arity)),
{
    let ghost g0 = *egraph;
    let ghost a0 = applams@;
    let ghost fs = f_applams@;
    let ghost xs = x_applams@;
    let ghost lefts = fs.map_values(|a: AppLam| left_bubbled(a, x, g0));
    let ghost rights = xs.map_values(|a: AppLam| right_bubbled(a, f, g0));
    // bubbling from the left: (app (applam body args) x) => (applam (app body shift(x)) args)
    let mut i: usize = 0;
    while i < f_applams.len()
        invariant
            egraph.wf(),
            g0.wf(),
            extends(g0, *egraph),
            caches.ok(*egraph, max_arity),
            max_arity <= i32::MAX,
            f < g0.nodes().len(),
            x < g0.nodes().len(),
            fs == f_applams@,
            lefts == fs.map_values(|a: AppLam| left_bubbled(a, x, g0)),
            applams_ok(f_applams@, g0.nodes().len(), max_arity, done),
            applams_ok(f_applams@, egraph.nodes().len(), max_arity, done),
            applams_ok(x_applams@, egraph.nodes().len(), max_arity, done),
            applams_ok(applams@, egraph.nodes().len(), max_arity, done),
            forall|j: int| 0 <= j < a0.len() ==> #[trigger] applams@[j] == a0[j],
            applams_are(applams@, a0.len() as int, *egraph, lefts.take(i as int)),
            i <= f_applams@.len(),
        decreases f_applams@.len() - i,
    {
        let f_applam = &f_applams[i];
        assert(applam_ok(f_applams@[i as int], egraph.nodes().len(), max_arity, done));
        assert(applam_ok(f_applams@[i as int], g0.nodes().len(), max_arity, done));
        let ghost g1 = *egraph;
        let shifted_x = caches.shift_by(x, f_applam.inv.arity, egraph, Ghost(max_arity));
        let ghost g2 = *egraph;
        let new_applam_body = add_app(egraph, f_applam.inv.body, shifted_x);
        proof {
            caches.lemma_extends(g2, *egraph, max_arity);
            lemma_extends_trans(g1, g2, *egraph);
            lemma_extends_trans(g0, g1, *egraph);
            lemma_applams_ok_mono(f_applams@, g1.nodes().len(), egraph.nodes().len(), max_arity, done, done);
            lemma_applams_ok_mono(x_applams@, g1.nodes().len(), egraph.nodes().len(), max_arity, done, done);
            lemma_applams_ok_mono(applams@, g1.nodes().len(), egraph.nodes().len(), max_arity, done, done);
            lemma_applams_are_extends(applams@, a0.len() as int, g1, *egraph, lefts.take(i as int));
            lemma_extends_term(g0, g1, x as int);
            lemma_extends_term(g0, g1, f_applam.inv.body as int);
            lemma_extends_term(g1, g2, f_applam.inv.body as int);
        }
        let args = clone_ids(&f_applam.args);
        let ghost before = applams@;
        applams.push(AppLam::new(new_applam_body, args));
        proof {
            assert(lefts.take(i + 1) =~= lefts.take(i as int).push(left_bubbled(fs[i as int], x, g0)));
            assert(applams@[a0.len() + i] == applams@.last());
            assert forall|k: int| 0 <= k < i + 1 implies applam_is(#[trigger] applams@[a0.len() + k], *egraph, lefts.take(i + 1)[k].0, lefts.take(i + 1)[k].1) by {
                if k < i {
                    assert(applams@[a0.len() + k] == before[a0.len() + k]);
                }
            }
        }
        i = i + 1;
    }
    proof {
        assert(lefts.take(fs.len() as int) =~= lefts);
    }
    // bubbling from the right: (app f (applam body args)) => (applam (app shift(f) body) args)
    let mut i: usize = 0;
    while i < x_applams.len()
        invariant
            egraph.wf(),
            g0.wf(),
            extends(g0, *egraph),
            caches.ok(*egraph, max_arity),
            max_arity <= i32::MAX,
            f < g0.nodes().len(),
            x < g0.nodes().len(),
            xs == x_applams@,
            rights == xs.map_values(|a: AppLam| right_bubbled(a, f, g0)),
            applams_ok(x_applams@, g0.nodes().len(), max_arity, done),
            applams_ok(f_applams@, egraph.nodes().len(), max_arity, done),
            applams_ok(x_applams@, egraph.nodes().len(), max_arity, done),
            applams_ok(applams@, egraph.nodes().len(), max_arity, done),
            forall|j: int| 0 <= j < a0.len() ==> #[trigger] applams@[j] == a0[j],
            applams_are(applams@, a0.len() as int, *egraph, lefts + rights.take(i as int)),
            i <= x_applams@.len(),
        decreases x_applams@.len() - i,
    {
        let x_applam = &x_applams[i];
        assert(applam_ok(x_applams@[i as int], egraph.nodes().len(), max_arity, done));
        assert(applam_ok(x_applams@[i as int], g0.nodes().len(), max_arity, done));
        let ghost g1 = *egraph;
        let shifted_f = caches.shift_by(f, x_applam.inv.arity, egraph, Ghost(max_arity));
        let ghost g2 = *egraph;
        let new_applam_body = add_app(egraph, shifted_f, x_applam.inv.body);
        proof {
            caches.lemma_extends(g2, *egraph, max_arity);
            lemma_extends_trans(g1, g2, *egraph);
            lemma_extends_trans(g0, g1, *egraph);
            lemma_applams_ok_mono(f_applams@, g1.nodes().len(), egraph.nodes().len(), max_arity, done, done);
            lemma_applams_ok_mono(x_applams@, g1.nodes().len(), egraph.nodes().len(), max_arity, done, done);
            lemma_applams_ok_mono(applams@, g1.nodes().len(), egraph.nodes().len(), max_arity, done, done);
            lemma_applams_are_extends(applams@, a0.len() as int, g1, *egraph, lefts + rights.take(i as int));
            lemma_extends_term(g0, g1, f as int);
            lemma_extends_term(g0, g1, x_applam.inv.body as int);
            lemma_extends_term(g1, g2, x_applam.inv.body as int);
        }
        let args = clone_ids(&x_applam.args);
        let ghost before = applams@;
        applams.push(AppLam::new(new_applam_body, args));
        proof {
            let vs = lefts + rights.take(i + 1);
            assert(vs =~= (lefts + rights.take(i as int)).push(right_bubbled(xs[i as int], f, g0)));
            assert forall|k: int| 0 <= k < vs.len() implies applam_is(#[trigger] applams@[a0.len() + k], *egraph, vs[k].0, vs[k].1) by {
                if k < vs.len() - 1 {
                    assert(applams@[a0.len() + k] == before[a0.len() + k]);
                }
            }
        }
        i = i + 1;
    }
    proof {
        assert(rights.take(xs.len() as int) =~= rights);
    }
    let ghost bubbled = lefts + rights;
    // combining an applam of f with one of x
    let mut i: usize = 0;
    while i < f_applams.len()
        invariant
            egraph.wf(),
            g0.wf(),
            extends(g0, *egraph),
            caches.ok(*egraph, max_arity),
            max_arity <= i32::MAX,
            fs == f_applams@,
            xs == x_applams@,
            applams_ok(f_applams@, g0.nodes().len(), max_arity, done),
            applams_ok(x_applams@, g0.nodes().len(), max_arity, done),
            applams_ok(f_applams@, egraph.nodes().len(), max_arity, done),
            applams_ok(x_applams@, egraph.nodes().len(), max_arity, done),
            applams_ok(applams@, egraph.nodes().len(), max_arity, done),
            forall|j: int| 0 <= j < a0.len() ==> #[trigger] applams@[j] == a0[j],
            applams_are(applams@, a0.len() as int, *egraph, bubbled + pairs_of(fs.take(i as int), xs, g0, max_arity)),
            i <= f_applams@.len(),
        decreases f_applams@.len() - i,
    {
        let ghost done_pairs = bubbled + pairs_of(fs.take(i as int), xs, g0, max_arity);
        let mut j: usize = 0;
        while j < x_applams.len()
            invariant
                egraph.wf(),
                g0.wf(),
                extends(g0, *egraph),
                caches.ok(*egraph, max_arity),
                max_arity <= i32::MAX,
                fs == f_applams@,
                xs == x_applams@,
                applams_ok(f_applams@, g0.nodes().len(), max_arity, done),
                applams_ok(x_applams@, g0.nodes().len(), max_arity, done),
                applams_ok(f_applams@, egraph.nodes().len(), max_arity, done),
                applams_ok(x_applams@, egraph.nodes().len(), max_arity, done),
                applams_ok(applams@, egraph.nodes().len(), max_arity, done),
                forall|j: int| 0 <= j < a0.len() ==> #[trigger] applams@[j] == a0[j],
                applams_are(applams@, a0.len() as int, *egraph, done_pairs + pairs_with(fs[i as int], xs.take(j as int), g0, max_arity)),
                i < f_applams@.len(),
                j <= x_applams@.len(),
            decreases x_applams@.len() - j,
        {
            assert(applam_ok(f_applams@[i as int], egraph.nodes().len(), max_arity, done));
            assert(applam_ok(x_applams@[j as int], egraph.nodes().len(), max_arity, done));
            assert(applam_ok(f_applams@[i as int], g0.nodes().len(), max_arity, done));
            assert(applam_ok(x_applams@[j as int], g0.nodes().len(), max_arity, done));
            let ghost g1 = *egraph;
            let ghost vs0 = done_pairs + pairs_with(fs[i as int], xs.take(j as int), g0, max_arity);
            let made = pair_applam(&f_applams[i], &x_applams[j], max_arity, egraph, caches, Ghost(done));
            proof {
                lemma_extends_trans(g0, g1, *egraph);
                lemma_applams_ok_mono(f_applams@, g1.nodes().len(), egraph.nodes().len(), max_arity, done, done);
                lemma_applams_ok_mono(x_applams@, g1.nodes().len(), egraph.nodes().len(), max_arity, done, done);
                lemma_applams_ok_mono(applams@, g1.nodes().len(), egraph.nodes().len(), max_arity, done, done);
                lemma_applams_are_extends(applams@, a0.len() as int, g1, *egraph, vs0);
                lemma_paired_extends(fs[i as int], xs[j as int], g0, g1, max_arity);
                assert(xs.take(j + 1).drop_last() =~= xs.take(j as int));
                assert(xs.take(j + 1).last() == xs[j as int]);
            }
            let ghost before = applams@;
            match made {
                Some(a) => {
                    applams.push(a);
                    proof {
                        let p = paired(fs[i as int], xs[j as int], g0, max_arity)->0;
                        let vs = done_pairs + pairs_with(fs[i as int], xs.take(j + 1), g0, max_arity);
                        assert(vs =~= vs0.push(p));
                        assert forall|k: int| 0 <= k < vs.len() implies applam_is(#[trigger] applams@[a0.len() + k], *egraph, vs[k].0, vs[k].1) by {
                            if k < vs.len() - 1 {
                                assert(applams@[a0.len() + k] == before[a0.len() + k]);
                            }
                        }
                    }
                },
                None => {
                    proof {
                        let vs = done_pairs + pairs_with(fs[i as int], xs.take(j + 1), g0, max_arity);
                        assert(vs =~= vs0);
                    }
                },
            }
            j = j + 1;
        }
        proof {
            assert(xs.take(xs.len() as int) =~= xs);
            assert(fs.take(i + 1).drop_last() =~= fs.take(i as int));
            assert(fs.take(i + 1).last() == fs[i as int]);
            assert(bubbled + pairs_of(fs.take(i + 1), xs, g0, max_arity) =~= done_pairs + pairs_with(fs[i as int], xs, g0, max_arity));
        }
        i = i + 1;
    }
    proof {
        assert(fs.take(fs.len() as int) =~= fs);
        assert(app_views(f, x, fs, xs, g0, max_arity) =~= bubbled + pairs_of(fs, xs, g0, max_arity));
    }
}

/// Some argument of `ba` refers to the binder just above it.
pub open spec fn refers_to_binder(ba: AppLam, g: ProgramGraph) -> bool {
    exists|k: int| 0 <= k < ba.args@.len() && crate::lambda::upward_refs(g.term(#[trigger] ba.args@[k] as int)).contains(0)
}

/// Applam `ba` of `b` moved up over `(lam b)`: the body goes under the
/// binder with its references re-pointed; none when an argument refers to
/// the binder.
pub open spec fn over_lam(ba: AppLam, g: ProgramGraph) -> Option<(Term, Seq<Id>)> {
    if refers_to_binder(ba, g) {
        None
    } else {
        Some((
            Term::Lam(Box::new(crate::shift::modify_term(g.term(ba.inv.body as int), 0, VarModView::OverLambda(ba.inv.arity as i32)))),
            ba.args@,
        ))
    }
}

/// The applams of `(lam b)` from the applams `bs` of `b`, in order.
pub open spec fn lam_views(bs: Seq<AppLam>, g: ProgramGraph) -> Seq<(Term, Seq<Id>)>
    decreases bs.len(),
{
    if bs.len() == 0 {
        Seq::empty()
    } else {
        let r = lam_views(bs.drop_last(), g);
        match over_lam(bs.last(), g) {
            Some(p) => r.push(p),
            None => r,
        }
    }
}

/// The applams of `(lam b)`: each applam of `b` whose arguments do not refer
/// to the binder, moved over it.
fn lam_applams(
    applams: &mut Vec<AppLam>,
    b_applams: &Vec<AppLam>,
    max_arity: usize,
    egraph: &mut ProgramGraph,
    caches: &mut Caches,
    Ghost(done): Ghost<Set<Id>>,
)
    requires
        old(egraph).wf(),
        old(caches).ok(*old(egraph), max_arity),
        forall|k: Id| #[trigger] done.contains(k) ==> k < old(egraph).nodes().len(),
        applams_ok(b_applams@, old(egraph).nodes().len(), max_arity, done),
        applams_ok(old(applams)@, old(egraph).nodes().len(), max_arity, done),
    ensures
        final(egraph).wf(),
        extends(*old(egraph), *final(egraph)),
        final(caches).ok(*final(egraph), max_arity),
        applams_ok(final(applams)@, final(egraph).nodes().len(), max_arity, done),
        forall|i: int| 0 <= i < old(applams)@.len() ==> #[trigger] final(applams)@[i] == old(applams)@[i],
        applams_are(final(applams)@, old(applams)@.len() as int, *final(egraph), lam_views(b_applams@, *old(egraph))),
{
    let ghost g0 = *egraph;
    let ghost a0 = applams@;
    let ghost bs = b_applams@;
    let mut i: usize = 0;
    while i < b_applams.len()
        invariant
            egraph.wf(),
            g0.wf(),
            extends(g0, *egraph),
            caches.ok(*egraph, max_arity),
            bs == b_applams@,
            forall|k: Id| #[trigger] done.contains(k) ==> k < g0.nodes().len(),
            applams_ok(b_applams@, g0.nodes().len(), max_arity, done),
            applams_ok(b_applams@, egraph.nodes().len(), max_arity, done),
            applams_ok(applams@, egraph.nodes().len(), max_arity, done),
            forall|j: int| 0 <= j < a0.len() ==> #[trigger] applams@[j] == a0[j],
            applams_are(applams@, a0.len() as int, *egraph, lam_views(bs.take(i as int), g0)),
            i <= b_applams@.len(),
        decreases b_applams@.len() - i,
    {
        let b_applam = &b_applams[i];
        assert(applam_ok(b_applams@[i as int], egraph.nodes().len(), max_arity, done));
        assert(applam_ok(b_applams@[i as int], g0.nodes().len(), max_arity, done));
        proof {
            assert(bs.take(i + 1).drop_last() =~= bs.take(i as int));
            assert(bs.take(i + 1).last() == bs[i as int]);
        }
        // an argument referring to the binder cannot be moved over it
        let mut blocked = false;
        let mut k: usize = 0;
        while k < b_applam.args.len()
            invariant
                egraph.wf(),
                g0.wf(),
                extends(g0, *egraph),
                forall|k: Id| #[trigger] done.contains(k) ==> k < g0.nodes().len(),
                forall|j: int| 0 <= j < b_applam.args@.len() ==> done.contains(#[trigger] b_applam.args@[j]),
                k <= b_applam.args@.len(),
                blocked <==> exists|q: int| 0 <= q < k && crate::lambda::upward_refs(g0.term(#[trigger] b_applam.args@[q] as int)).contains(0),
            decreases b_applam.args@.len() - k,
        {
            assert(done.contains(b_applam.args@[k as int]));
            proof {
                lemma_extends_term(g0, *egraph, b_applam.args@[k as int] as int);
            }
            if egraph.upward_refs(b_applam.args[k]).contains(&0) {
                blocked = true;
            }
            k = k + 1;
        }
        let ghost before = applams@;
        if !blocked {
            let arity = b_applam.inv.arity;
            let ghost g1 = *egraph;
            let shifted_b = caches.over_lambda(b_applam.inv.body, arity, egraph, Ghost(max_arity));
            let ghost g2 = *egraph;
            let new_applam_body = add_lam(egraph, shifted_b);
            proof {
                caches.lemma_extends(g2, *egraph, max_arity);
                lemma_extends_trans(g1, g2, *egraph);
                lemma_extends_trans(g0, g1, *egraph);
                lemma_applams_ok_mono(b_applams@, g1.nodes().len(), egraph.nodes().len(), max_arity, done, done);
                lemma_applams_ok_mono(applams@, g1.nodes().len(), egraph.nodes().len(), max_arity, done, done);
                lemma_applams_are_extends(applams@, a0.len() as int, g1, *egraph, lam_views(bs.take(i as int), g0));
                lemma_extends_term(g0, g1, b_applam.inv.body as int);
            }
            let args = clone_ids(&b_applam.args);
            applams.push(AppLam::new(new_applam_body, args));
            proof {
                let p = over_lam(bs[i as int], g0)->0;
                let vs = lam_views(bs.take(i + 1), g0);
                assert(!refers_to_binder(bs[i as int], g0));
                assert(vs =~= lam_views(bs.take(i as int), g0).push(p));
                assert forall|k: int| 0 <= k < vs.len() implies applam_is(#[trigger] applams@[a0.len() + k], *egraph, vs[k].0, vs[k].1) by {
                    if k < vs.len() - 1 {
                        assert(applams@[a0.len() + k] == before[a0.len() + k]);
                    }
                }
            }
        } else {
            proof {
                let q = choose|q: int| 0 <= q < b_applam.args@.len() && crate::lambda::upward_refs(g0.term(#[trigger] b_applam.args@[q] as int)).contains(0);
                assert(refers_to_binder(bs[i as int], g0));
                assert(lam_views(bs.take(i + 1), g0) =~= lam_views(bs.take(i as int), g0));
            }
        }
        i = i + 1;
    }
    proof {
        assert(bs.take(bs.len() as int) =~= bs);
    }
}

/// No invention recorded in `best` has the identity `$0` as its body.
pub open spec fn avoids(best: BestInventions, var0: Id) -> bool {
    forall|inv: Invention| #[trigger] best.inventionful_cost@.contains_key(inv) ==> inv.body != var0
}

/// No table in `best_of` records an invention with body `$0`.
pub open spec fn tables_avoid(best_of: Map<Id, BestInventions>, var0: Id) -> bool {
    forall|k: Id| #[trigger] best_of.contains_key(k) ==> avoids(best_of[k], var0)
}

/// Every invention recorded in `best` is a node of `g` whose free variables
/// all refer to its arguments.
pub open spec fn keys_valid(best: BestInventions, g: ProgramGraph) -> bool {
    forall|inv: Invention| #[trigger] best.inventionful_cost@.contains_key(inv) ==> inv.body < g.nodes().len() && inv.spec_valid(g)
}

/// Every table in `best_of` records only valid inventions of `g`.
pub open spec fn tables_valid(best_of: Map<Id, BestInventions>, g: ProgramGraph) -> bool {
    forall|k: Id| #[trigger] best_of.contains_key(k) ==> keys_valid(best_of[k], g)
}

/// Every best-cost table in `best_of` is well formed.
pub open spec fn tables_ok(best_of: Map<Id, BestInventions>) -> bool {
    forall|k: Id| #[trigger] best_of.contains_key(k) ==> best_of[k].wf()
}

/// `inv` is recorded at some child of `node`.
pub open spec fn in_some_child(best_of: Map<Id, BestInventions>, node: Lambda, inv: Invention) -> bool {
    exists|j: int| 0 <= j < node.children().len() && #[trigger] best_of[node.children()[j]].inventionful_cost@.contains_key(inv)
}

/// The inventions recorded at the children `children`, child by child, each
/// table in its own order.
pub open spec fn child_keys(best_of: Map<Id, BestInventions>, children: Seq<Id>) -> Seq<Invention>
    decreases children.len(),
{
    if children.len() == 0 {
        Seq::empty()
    } else {
        child_keys(best_of, children.drop_last())
            + best_of[children.last()].inventionful_cost.entries().map_values(|e: (Invention, i32)| e.0)
    }
}

/// How many times `inv` occurs in `v`, counted in `i32` with wrapping.
pub open spec fn count_in(v: Seq<Invention>, inv: Invention) -> i32
    decreases v.len(),
{
    if v.len() == 0 {
        0
    } else {
        count_in(v.drop_last(), inv).wrapping_add(if v.last() == inv { 1i32 } else { 0i32 })
    }
}

/// The cost of replacing a node by applam `a`: the new primitive, one
/// application per argument, and each argument's cost under `a`'s invention.
pub open spec fn applam_cost(a: AppLam, best_of: Map<Id, BestInventions>) -> i32 {
    COST_TERMINAL.wrapping_add(COST_NONTERMINAL.wrapping_mul(a.inv.arity as i32)).wrapping_add(
        crate::lambda::wrapping_sum(a.args@.map_values(|arg: Id| best_of[arg].spec_cost_under_inv(a.inv))),
    )
}

/// The cost of a corpus under `inv`: the sum of its programs' costs.
pub open spec fn programs_cost(best_of: Map<Id, BestInventions>, roots: Seq<Id>, inv: Invention) -> i32 {
    crate::lambda::wrapping_sum(roots.map_values(|r: Id| best_of[r].spec_cost_under_inv(inv)))
}

/// `c` is the cost of replacing the node by one of its first `n` applams,
/// for `inv`, a valid invention other than the identity.
pub open spec fn applam_candidate(
    applams: Seq<AppLam>,
    var0: Id,
    best_of: Map<Id, BestInventions>,
    g: ProgramGraph,
    n: int,
    inv: Invention,
    c: i32,
) -> bool {
    exists|i: int|
        0 <= i < n && (#[trigger] applams[i]).inv == inv && inv.spec_valid(g) && inv.body != var0
            && c == applam_cost(applams[i], best_of)
}

/// `c` is the cost of `node` with `inv` through its children's best costs:
/// for an application, one more than the costs of function and argument; for
/// an abstraction, one more than the body's; for a corpus, the sum over its
/// programs, for inventions that two or more programs use.
pub open spec fn child_candidate(node: Lambda, best_of: Map<Id, BestInventions>, inv: Invention, c: i32) -> bool {
    match node {
        Lambda::App(f, x) => child_keys(best_of, node.children()).contains(inv)
            && c == COST_NONTERMINAL.wrapping_add(best_of[f].spec_cost_under_inv(inv)).wrapping_add(best_of[x].spec_cost_under_inv(inv)),
        Lambda::Lam(b) => best_of[b].inventionful_cost@.contains_key(inv)
            && c == best_of[b].inventionful_cost@[inv].wrapping_add(COST_NONTERMINAL),
        Lambda::Programs(roots) => count_in(child_keys(best_of, node.children()), inv) > 1
            && c == programs_cost(best_of, roots@, inv),
        _ => false,
    }
}

/// `c` is a cost the search considers for node `node` with invention `inv`:
/// through one of the node's applams, or through its children's best costs.
pub open spec fn is_candidate(
    node: Lambda,
    applams: Seq<AppLam>,
    var0: Id,
    best_of: Map<Id, BestInventions>,
    g: ProgramGraph,
    inv: Invention,
    c: i32,
) -> bool {
    applam_candidate(applams, var0, best_of, g, applams.len() as int, inv, c) || child_candidate(node, best_of, inv, c)
}

/// `table` records, for every invention with a candidate cost below `base`,
/// the least candidate cost, and nothing else.
pub open spec fn best_for(table: Map<Invention, i32>, base: i32, cand: spec_fn(Invention, i32) -> bool) -> bool {
    &&& forall|inv: Invention| #[trigger] table.contains_key(inv) ==> table[inv] < base && cand(inv, table[inv])
        && forall|c: i32| #[trigger] cand(inv, c) ==> table[inv] <= c
    &&& forall|inv: Invention, c: i32| #[trigger] cand(inv, c) && c < base ==> table.contains_key(inv)
}

proof fn lemma_best_for_step(
    table: Map<Invention, i32>,
    base: i32,
    cand: spec_fn(Invention, i32) -> bool,
    cand2: spec_fn(Invention, i32) -> bool,
    inv: Invention,
    c: i32,
)
    requires
        best_for(table, base, cand),
        forall|i: Invention, d: i32| #[trigger] cand2(i, d) <==> cand(i, d) || (i == inv && d == c),
    ensures
        best_for(
            if c < base && (!table.contains_key(inv) || c < table[inv]) {
                table.insert(inv, c)
            } else {
                table
            },
            base,
            cand2,
        ),
{
    let t2 = if c < base && (!table.contains_key(inv) || c < table[inv]) {
        table.insert(inv, c)
    } else {
        table
    };
    assert forall|i: Invention| #[trigger] t2.contains_key(i) implies t2[i] < base && cand2(i, t2[i])
        && forall|d: i32| #[trigger] cand2(i, d) ==> t2[i] <= d by {
        assert forall|d: i32| #[trigger] cand2(i, d) implies t2[i] <= d by {
            if cand(i, d) {
                if table.contains_key(i) {
                    assert(table[i] <= d);
                }
            }
        }
        if i != inv || t2 == table {
            assert(cand(i, t2[i]));
        }
    }
    assert forall|i: Invention, d: i32| #[trigger] cand2(i, d) && d < base implies t2.contains_key(i) by {
        if cand(i, d) {
            assert(table.contains_key(i));
        }
    }
}

proof fn lemma_best_for_equiv(table: Map<Invention, i32>, base: i32, cand: spec_fn(Invention, i32) -> bool, cand2: spec_fn(Invention, i32) -> bool)
    requires
        best_for(table, base, cand),
        forall|i: Invention, d: i32| #[trigger] cand2(i, d) <==> cand(i, d),
    ensures
        best_for(table, base, cand2),
{
    assert forall|i: Invention| #[trigger] table.contains_key(i) implies table[i] < base && cand2(i, table[i])
        && forall|d: i32| #[trigger] cand2(i, d) ==> table[i] <= d by {
        assert forall|d: i32| #[trigger] cand2(i, d) implies table[i] <= d by {
            assert(cand(i, d));
        }
    }
    assert forall|i: Invention, d: i32| #[trigger] cand2(i, d) && d < base implies table.contains_key(i) by {
        assert(cand(i, d));
    }
}

/// The inventions recorded at the children of `node`, child by child.
fn child_inventions(node: &Lambda, best_of: &HashMap<Id, BestInventions>) -> (r: Vec<Invention>)
    requires
        tables_ok(best_of@),
        forall|j: int| 0 <= j < node.children().len() ==> best_of@.contains_key(#[trigger] node.children()[j]),
    ensures
        r@ == child_keys(best_of@, node.children()),
        forall|inv: Invention| r@.contains(inv) <==> in_some_child(best_of@, *node, inv),
{
    let children = node.child_ids();
    let mut r: Vec<Invention> = Vec::new();
    let mut j: usize = 0;
    while j < children.len()
        invariant
            tables_ok(best_of@),
            children@ == node.children(),
            forall|j: int| 0 <= j < node.children().len() ==> best_of@.contains_key(#[trigger] node.children()[j]),
            j <= children@.len(),
            r@ == child_keys(best_of@, children@.take(j as int)),
            forall|inv: Invention| r@.contains(inv) <==> exists|q: int| 0 <= q < j && #[trigger] best_of@[node.children()[q]].inventionful_cost@.contains_key(inv),
        decreases children@.len() - j,
    {
        assert(best_of@.contains_key(node.children()[j as int]));
        let table = best_of.get(&children[j]).unwrap();
        let keys = table.inventionful_cost.keys();
        let ghost r0 = r@;
        let ghost jj = j as int;
        let mut k: usize = 0;
        while k < keys.len()
            invariant
                k <= keys@.len(),
                keys@ == table.inventionful_cost.entries().map_values(|e: (Invention, i32)| e.0),
                keys@.to_set() == table.inventionful_cost@.dom(),
                r@ == r0 + keys@.take(k as int),
            decreases keys@.len() - k,
        {
            r.push(keys[k]);
            proof {
                assert(keys@.take(k + 1) =~= keys@.take(k as int).push(keys@[k as int]));
                assert(r0 + keys@.take(k + 1) =~= (r0 + keys@.take(k as int)).push(keys@[k as int]));
            }
            k = k + 1;
        }
        proof {
            assert(keys@.take(keys@.len() as int) =~= keys@);
            assert(children@.take(j + 1).drop_last() =~= children@.take(j as int));
            assert(children@.take(j + 1).last() == children@[j as int]);
            assert forall|inv: Invention| r@.contains(inv) <==> exists|q: int| 0 <= q < j + 1 && #[trigger] best_of@[node.children()[q]].inventionful_cost@.contains_key(inv) by {
                if r@.contains(inv) {
                    let w = choose|w: int| 0 <= w < r@.len() && r@[w] == inv;
                    if w >= r0.len() {
                        assert(keys@[w - r0.len()] == inv);
                        assert(keys@.to_set().contains(inv));
                    } else {
                        assert(r0[w] == inv);
                        assert(r0.contains(inv));
                    }
                }
                if exists|q: int| 0 <= q < j + 1 && #[trigger] best_of@[node.children()[q]].inventionful_cost@.contains_key(inv) {
                    let q = choose|q: int| 0 <= q < j + 1 && #[trigger] best_of@[node.children()[q]].inventionful_cost@.contains_key(inv);
                    if q == j {
                        assert(keys@.to_set().contains(inv));
                        let w = choose|w: int| 0 <= w < keys@.len() && keys@[w] == inv;
                        assert(r@[r0.len() + w] == inv);
                    } else {
                        assert(r0.contains(inv));
                        let w = choose|w: int| 0 <= w < r0.len() && r0[w] == inv;
                        assert(r@[w] == inv);
                    }
                }
            }
        }
        j = j + 1;
    }
    proof {
        assert(children@.take(children@.len() as int) =~= children@);
    }
    r
}

/// Records the cost of replacing the node by each of its applams.
fn record_applams(
    best: &mut BestInventions,
    applams: &Vec<AppLam>,
    var0: Id,
    best_of: &HashMap<Id, BestInventions>,
    egraph: &ProgramGraph,
)
    requires
        egraph.wf(),
        old(best).wf(),
        old(best).inventionful_cost@ == Map::<Invention, i32>::empty(),
        tables_ok(best_of@),
        forall|i: int| 0 <= i < applams@.len() ==> (#[trigger] applams@[i]).inv.body < egraph.nodes().len(),
        forall|i: int| 0 <= i < applams@.len() ==> (#[trigger] applams@[i]).inv.body == var0
            || forall|j: int| 0 <= j < applams@[i].args@.len() ==> best_of@.contains_key(#[trigger] applams@[i].args@[j]),
    ensures
        final(best).wf(),
        final(best).inventionless_cost == old(best).inventionless_cost,
        avoids(*final(best), var0),
        best_for(final(best).inventionful_cost@, final(best).inventionless_cost,
            |inv: Invention, c: i32| applam_candidate(applams@, var0, best_of@, *egraph, applams@.len() as int, inv, c)),
{
    let ghost base = best.inventionless_cost;
    let ghost av = applams@;
    proof {
        assert(best_for(best.inventionful_cost@, base, |inv: Invention, c: i32| applam_candidate(av, var0, best_of@, *egraph, 0, inv, c)));
    }
    let mut i: usize = 0;
    while i < applams.len()
        invariant
            egraph.wf(),
            tables_ok(best_of@),
            best.wf(),
            best.inventionless_cost == base,
            avoids(*best, var0),
            av == applams@,
            forall|i: int| 0 <= i < applams@.len() ==> (#[trigger] applams@[i]).inv.body < egraph.nodes().len(),
            forall|i: int| 0 <= i < applams@.len() ==> (#[trigger] applams@[i]).inv.body == var0
                || forall|j: int| 0 <= j < applams@[i].args@.len() ==> best_of@.contains_key(#[trigger] applams@[i].args@[j]),
            i <= applams@.len(),
            best_for(best.inventionful_cost@, base, |inv: Invention, c: i32| applam_candidate(av, var0, best_of@, *egraph, i as int, inv, c)),
        decreases applams@.len() - i,
    {
        let applam = &applams[i];
        let ghost cand = |inv: Invention, c: i32| applam_candidate(av, var0, best_of@, *egraph, i as int, inv, c);
        let ghost cand2 = |inv: Invention, c: i32| applam_candidate(av, var0, best_of@, *egraph, i + 1, inv, c);
        assert(applams@[i as int].inv.body < egraph.nodes().len());
        if applam.inv.valid_invention(egraph) && applam.inv.body != var0 {
            let ghost costs = applam.args@.map_values(|arg: Id| best_of@[arg].spec_cost_under_inv(applam.inv));
            let mut sum: i32 = 0;
            let mut k: usize = 0;
            while k < applam.args.len()
                invariant
                    tables_ok(best_of@),
                    forall|j: int| 0 <= j < applam.args@.len() ==> best_of@.contains_key(#[trigger] applam.args@[j]),
                    k <= applam.args@.len(),
                    costs == applam.args@.map_values(|arg: Id| best_of@[arg].spec_cost_under_inv(applam.inv)),
                    sum == crate::lambda::wrapping_sum(costs.take(k as int)),
                decreases applam.args@.len() - k,
            {
                assert(best_of@.contains_key(applam.args@[k as int]));
                let table = best_of.get(&applam.args[k]).unwrap();
                proof {
                    assert(costs.take(k + 1).drop_last() =~= costs.take(k as int));
                }
                sum = sum.wrapping_add(table.cost_under_inv(&applam.inv));
                k = k + 1;
            }
            proof {
                assert(costs.take(costs.len() as int) =~= costs);
            }
            let cost = COST_TERMINAL.wrapping_add(COST_NONTERMINAL.wrapping_mul(applam.inv.arity as i32)).wrapping_add(sum);
            proof {
                assert(cost == applam_cost(av[i as int], best_of@));
                assert forall|inv: Invention, d: i32| #[trigger] cand2(inv, d) <==> cand(inv, d) || (inv == applam.inv && d == cost) by {
                    if cand2(inv, d) && !cand(inv, d) {
                        let q = choose|q: int| 0 <= q < i + 1 && (#[trigger] av[q]).inv == inv && inv.spec_valid(*egraph) && inv.body != var0
                            && d == applam_cost(av[q], best_of@);
                        assert(q == i);
                    }
                    if inv == applam.inv && d == cost {
                        assert(av[i as int].inv == inv);
                    }
                }
                lemma_best_for_step(best.inventionful_cost@, base, cand, cand2, applam.inv, cost);
            }
            best.new_cost_under_inv(applam.inv, cost);
        } else {
            proof {
                assert forall|inv: Invention, d: i32| #[trigger] cand2(inv, d) <==> cand(inv, d) by {
                    if cand2(inv, d) && !cand(inv, d) {
                        let q = choose|q: int| 0 <= q < i + 1 && (#[trigger] av[q]).inv == inv && inv.spec_valid(*egraph) && inv.body != var0
                            && d == applam_cost(av[q], best_of@);
                        assert(q == i);
                    }
                }
                lemma_best_for_equiv(best.inventionful_cost@, base, cand, cand2);
            }
        }
        i = i + 1;
    }
}

/// A count of zero for an invention that does not occur.
proof fn lemma_count_in_absent(v: Seq<Invention>, inv: Invention)
    requires
        !v.contains(inv),
    ensures
        count_in(v, inv) == 0,
    decreases v.len(),
{
    if v.len() > 0 {
        assert(!v.drop_last().contains(inv)) by {
            if v.drop_last().contains(inv) {
                let w = choose|w: int| 0 <= w < v.drop_last().len() && v.drop_last()[w] == inv;
                assert(v[w] == inv);
            }
        }
        lemma_count_in_absent(v.drop_last(), inv);
        assert(v.last() != inv);
    }
}

/// Records the costs of the node through its children's best costs.
fn record_child_costs(
    best: &mut BestInventions,
    node: &Lambda,
    child_invs: &Vec<Invention>,
    var0: Id,
    best_of: &HashMap<Id, BestInventions>,
    Ghost(cand0): Ghost<spec_fn(Invention, i32) -> bool>,
)
    requires
        old(best).wf(),
        avoids(*old(best), var0),
        tables_ok(best_of@),
        tables_avoid(best_of@, var0),
        forall|j: int| 0 <= j < node.children().len() ==> best_of@.contains_key(#[trigger] node.children()[j]),
        child_invs@ == child_keys(best_of@, node.children()),
        forall|inv: Invention| child_invs@.contains(inv) <==> in_some_child(best_of@, *node, inv),
        best_for(old(best).inventionful_cost@, old(best).inventionless_cost, cand0),
    ensures
        final(best).wf(),
        final(best).inventionless_cost == old(best).inventionless_cost,
        avoids(*final(best), var0),
        best_for(final(best).inventionful_cost@, final(best).inventionless_cost,
            |inv: Invention, c: i32| cand0(inv, c) || child_candidate(*node, best_of@, inv, c)),
{
    let ghost base = best.inventionless_cost;
    let ghost r = child_invs@;
    let ghost target = |inv: Invention, c: i32| cand0(inv, c) || child_candidate(*node, best_of@, inv, c);
    match node {
        Lambda::App(f, x) => {
            assert(node.children()[0] == *f && node.children()[1] == *x);
            let f_best = best_of.get(f).unwrap();
            let x_best = best_of.get(x).unwrap();
            let ghost cost_of = |inv: Invention| COST_NONTERMINAL.wrapping_add(f_best.spec_cost_under_inv(inv)).wrapping_add(x_best.spec_cost_under_inv(inv));
            let mut k: usize = 0;
            while k < child_invs.len()
                invariant
                    best.wf(),
                    best.inventionless_cost == base,
                    avoids(*best, var0),
                    tables_avoid(best_of@, var0),
                    f_best.wf(),
                    x_best.wf(),
                    r == child_invs@,
                    cost_of == |inv: Invention| COST_NONTERMINAL.wrapping_add(f_best.spec_cost_under_inv(inv)).wrapping_add(x_best.spec_cost_under_inv(inv)),
                    forall|inv: Invention| child_invs@.contains(inv) <==> in_some_child(best_of@, *node, inv),
                    forall|j: int| 0 <= j < node.children().len() ==> best_of@.contains_key(#[trigger] node.children()[j]),
                    k <= child_invs@.len(),
                    best_for(best.inventionful_cost@, base, |inv: Invention, c: i32| cand0(inv, c)
                        || exists|q: int| 0 <= q < k && r[q] == inv && c == cost_of(inv)),
                decreases child_invs@.len() - k,
            {
                let inv = child_invs[k];
                proof {
                    assert(child_invs@.contains(inv));
                    assert(in_some_child(best_of@, *node, inv));
                    let j = choose|j: int| 0 <= j < node.children().len() && #[trigger] best_of@[node.children()[j]].inventionful_cost@.contains_key(inv);
                    assert(best_of@.contains_key(node.children()[j]));
                }
                let cost = COST_NONTERMINAL.wrapping_add(f_best.cost_under_inv(&inv)).wrapping_add(x_best.cost_under_inv(&inv));
                proof {
                    let cand = |i: Invention, c: i32| cand0(i, c) || exists|q: int| 0 <= q < k && r[q] == i && c == cost_of(i);
                    let cand2 = |i: Invention, c: i32| cand0(i, c) || exists|q: int| 0 <= q < k + 1 && r[q] == i && c == cost_of(i);
                    assert(cost == cost_of(inv));
                    assert forall|i: Invention, d: i32| #[trigger] cand2(i, d) <==> cand(i, d) || (i == inv && d == cost) by {
                        if i == inv && d == cost {
                            assert(r[k as int] == i);
                            assert(0 <= k < k + 1 && r[k as int] == i && d == cost_of(i));
                        }
                        if cand2(i, d) && !cand(i, d) && !cand0(i, d) {
                            let q = choose|q: int| 0 <= q < k + 1 && r[q] == i && d == cost_of(i);
                            assert(q == k);
                        }
                    }
                    lemma_best_for_step(best.inventionful_cost@, base, cand, cand2, inv, cost);
                }
                best.new_cost_under_inv(inv, cost);
                k = k + 1;
            }
            proof {
                let cand = |i: Invention, c: i32| cand0(i, c) || exists|q: int| 0 <= q < k && r[q] == i && c == cost_of(i);
                assert forall|i: Invention, d: i32| #[trigger] target(i, d) <==> cand(i, d) by {
                    if child_keys(best_of@, node.children()).contains(i) {
                        let q = choose|q: int| 0 <= q < r.len() && r[q] == i;
                        assert(r[q] == i);
                    }
                    if exists|q: int| 0 <= q < k && r[q] == i && d == cost_of(i) {
                        let q = choose|q: int| 0 <= q < k && r[q] == i && d == cost_of(i);
                        assert(r.contains(i));
                    }
                }
                lemma_best_for_equiv(best.inventionful_cost@, base, cand, target);
            }
        },
        Lambda::Lam(b) => {
            assert(node.children()[0] == *b);
            let b_best = best_of.get(b).unwrap();
            let ghost ents = b_best.inventionful_cost.entries();
            let mut k: usize = 0;
            while k < b_best.inventionful_cost.len()
                invariant
                    best.wf(),
                    best.inventionless_cost == base,
                    avoids(*best, var0),
                    tables_avoid(best_of@, var0),
                    b_best.wf(),
                    *b_best == best_of@[node.children()[0]],
                    best_of@.contains_key(node.children()[0]),
                    ents == b_best.inventionful_cost.entries(),
                    k <= ents.len(),
                    best_for(best.inventionful_cost@, base, |inv: Invention, c: i32| cand0(inv, c)
                        || exists|q: int| 0 <= q < k && ents[q].0 == inv && c == ents[q].1.wrapping_add(COST_NONTERMINAL)),
                decreases ents.len() - k,
            {
                let (inv, cost) = b_best.inventionful_cost.entry(k);
                proof {
                    assert(best_of@.contains_key(node.children()[0]));
                    let cand = |i: Invention, c: i32| cand0(i, c) || exists|q: int| 0 <= q < k && ents[q].0 == i && c == ents[q].1.wrapping_add(COST_NONTERMINAL);
                    let cand2 = |i: Invention, c: i32| cand0(i, c) || exists|q: int| 0 <= q < k + 1 && ents[q].0 == i && c == ents[q].1.wrapping_add(COST_NONTERMINAL);
                    assert forall|i: Invention, d: i32| #[trigger] cand2(i, d) <==> cand(i, d) || (i == inv && d == cost.wrapping_add(COST_NONTERMINAL)) by {
                        if cand2(i, d) && !cand(i, d) && !cand0(i, d) {
                            let q = choose|q: int| 0 <= q < k + 1 && ents[q].0 == i && d == ents[q].1.wrapping_add(COST_NONTERMINAL);
                            assert(q == k);
                        }
                    }
                    lemma_best_for_step(best.inventionful_cost@, base, cand, cand2, inv, cost.wrapping_add(COST_NONTERMINAL));
                }
                best.new_cost_under_inv(inv, cost.wrapping_add(COST_NONTERMINAL));
                k = k + 1;
            }
            proof {
                let cand = |i: Invention, c: i32| cand0(i, c) || exists|q: int| 0 <= q < k && ents[q].0 == i && c == ents[q].1.wrapping_add(COST_NONTERMINAL);
                assert forall|i: Invention, d: i32| #[trigger] target(i, d) <==> cand(i, d) by {
                    if b_best.inventionful_cost@.contains_key(i) {
                        let q = choose|q: int| 0 <= q < ents.len() && (#[trigger] ents[q]).0 == i;
                        crate::invention::lemma_entries_map_at(ents, q);
                    }
                    if exists|q: int| 0 <= q < k && ents[q].0 == i && d == ents[q].1.wrapping_add(COST_NONTERMINAL) {
                        let q = choose|q: int| 0 <= q < k && ents[q].0 == i && d == ents[q].1.wrapping_add(COST_NONTERMINAL);
                        crate::invention::lemma_entries_map_at(ents, q);
                    }
                }
                lemma_best_for_equiv(best.inventionful_cost@, base, cand, target);
            }
        },
        Lambda::Programs(roots) => {
            // how many programs each invention helped
            let mut counts = InventionCosts::new();
            let mut k: usize = 0;
            while k < child_invs.len()
                invariant
                    counts.wf(),
                    r == child_invs@,
                    k <= r.len(),
                    forall|inv: Invention| #[trigger] counts@.contains_key(inv) <==> r.take(k as int).contains(inv),
                    forall|inv: Invention| #[trigger] counts@.contains_key(inv) ==> counts@[inv] == 0,
                decreases r.len() - k,
            {
                counts.insert(child_invs[k], 0);
                proof {
                    assert(r.take(k + 1) =~= r.take(k as int).push(r[k as int]));
                    assert forall|inv: Invention| #[trigger] counts@.contains_key(inv) <==> r.take(k + 1).contains(inv) by {
                        if r.take(k + 1).contains(inv) && inv != r[k as int] {
                            let w = choose|w: int| 0 <= w < k + 1 && #[trigger] r.take(k + 1)[w] == inv;
                            assert(r.take(k as int)[w] == inv);
                        }
                        if r.take(k as int).contains(inv) {
                            let w = choose|w: int| 0 <= w < k && #[trigger] r.take(k as int)[w] == inv;
                            assert(r.take(k + 1)[w] == inv);
                        }
                        if inv == r[k as int] {
                            assert(r.take(k + 1)[k as int] == inv);
                        }
                    }
                }
                k = k + 1;
            }
            proof {
                assert(r.take(r.len() as int) =~= r);
                assert forall|inv: Invention| #[trigger] counts@.contains_key(inv) implies counts@[inv] == count_in(r.take(0), inv) by {}
            }
            let mut k: usize = 0;
            while k < child_invs.len()
                invariant
                    counts.wf(),
                    r == child_invs@,
                    k <= r.len(),
                    forall|inv: Invention| #[trigger] counts@.contains_key(inv) <==> r.contains(inv),
                    forall|inv: Invention| #[trigger] counts@.contains_key(inv) ==> counts@[inv] == count_in(r.take(k as int), inv),
                decreases r.len() - k,
            {
                let inv = child_invs[k];
                assert(counts@.contains_key(r[k as int]));
                let c = counts.get(&inv).unwrap();
                counts.insert(inv, c.wrapping_add(1));
                proof {
                    assert(r.take(k + 1).drop_last() =~= r.take(k as int));
                    assert(r.take(k + 1).last() == inv);
                    assert forall|i: Invention| #[trigger] counts@.contains_key(i) implies counts@[i] == count_in(r.take(k + 1), i) by {
                        if i != inv {
                            assert(count_in(r.take(k + 1), i) == count_in(r.take(k as int), i).wrapping_add(0));
                        }
                    }
                }
                k = k + 1;
            }
            proof {
                assert(r.take(r.len() as int) =~= r);
            }
            let ghost cents = counts.entries();
            // only inventions used by two or more programs are kept
            let mut k: usize = 0;
            while k < counts.len()
                invariant
                    best.wf(),
                    best.inventionless_cost == base,
                    avoids(*best, var0),
                    tables_avoid(best_of@, var0),
                    counts.wf(),
                    cents == counts.entries(),
                    r == child_keys(best_of@, node.children()),
                    forall|inv: Invention| #[trigger] counts@.contains_key(inv) <==> r.contains(inv),
                    forall|inv: Invention| #[trigger] counts@.contains_key(inv) ==> counts@[inv] == count_in(r, inv),
                    forall|inv: Invention| r.contains(inv) <==> in_some_child(best_of@, *node, inv),
                    tables_ok(best_of@),
                    forall|j: int| 0 <= j < node.children().len() ==> best_of@.contains_key(#[trigger] node.children()[j]),
                    *node == Lambda::Programs(*roots),
                    k <= cents.len(),
                    best_for(best.inventionful_cost@, base, |inv: Invention, c: i32| cand0(inv, c)
                        || exists|q: int| 0 <= q < k && cents[q].0 == inv && cents[q].1 > 1 && c == programs_cost(best_of@, roots@, inv)),
                decreases cents.len() - k,
            {
                let (inv, c) = counts.entry(k);
                let ghost cand = |i: Invention, d: i32| cand0(i, d)
                    || exists|q: int| 0 <= q < k && cents[q].0 == i && cents[q].1 > 1 && d == programs_cost(best_of@, roots@, i);
                let ghost cand2 = |i: Invention, d: i32| cand0(i, d)
                    || exists|q: int| 0 <= q < k + 1 && cents[q].0 == i && cents[q].1 > 1 && d == programs_cost(best_of@, roots@, i);
                if c > 1 {
                    proof {
                        assert(r.contains(inv));
                        assert(in_some_child(best_of@, *node, inv));
                    }
                    let ghost costs = roots@.map_values(|rt: Id| best_of@[rt].spec_cost_under_inv(inv));
                    let mut sum: i32 = 0;
                    let mut q: usize = 0;
                    while q < roots.len()
                        invariant
                            tables_ok(best_of@),
                            forall|j: int| 0 <= j < node.children().len() ==> best_of@.contains_key(#[trigger] node.children()[j]),
                            *node == Lambda::Programs(*roots),
                            q <= roots@.len(),
                            costs == roots@.map_values(|rt: Id| best_of@[rt].spec_cost_under_inv(inv)),
                            sum == crate::lambda::wrapping_sum(costs.take(q as int)),
                        decreases roots@.len() - q,
                    {
                        assert(best_of@.contains_key(node.children()[q as int]));
                        let table = best_of.get(&roots[q]).unwrap();
                        proof {
                            assert(costs.take(q + 1).drop_last() =~= costs.take(q as int));
                        }
                        sum = sum.wrapping_add(table.cost_under_inv(&inv));
                        q = q + 1;
                    }
                    proof {
                        assert(costs.take(costs.len() as int) =~= costs);
                        assert forall|i: Invention, d: i32| #[trigger] cand2(i, d) <==> cand(i, d) || (i == inv && d == sum) by {
                            if cand2(i, d) && !cand(i, d) && !cand0(i, d) {
                                let w = choose|w: int| 0 <= w < k + 1 && cents[w].0 == i && cents[w].1 > 1 && d == programs_cost(best_of@, roots@, i);
                                assert(w == k);
                            }
                        }
                        lemma_best_for_step(best.inventionful_cost@, base, cand, cand2, inv, sum);
                    }
                    best.new_cost_under_inv(inv, sum);
                } else {
                    proof {
                        assert forall|i: Invention, d: i32| #[trigger] cand2(i, d) <==> cand(i, d) by {
                            if cand2(i, d) && !cand(i, d) && !cand0(i, d) {
                                let w = choose|w: int| 0 <= w < k + 1 && cents[w].0 == i && cents[w].1 > 1 && d == programs_cost(best_of@, roots@, i);
                                assert(w == k);
                            }
                        }
                        lemma_best_for_equiv(best.inventionful_cost@, base, cand, cand2);
                    }
                }
                k = k + 1;
            }
            proof {
                let cand = |i: Invention, d: i32| cand0(i, d)
                    || exists|q: int| 0 <= q < k && cents[q].0 == i && cents[q].1 > 1 && d == programs_cost(best_of@, roots@, i);
                assert forall|i: Invention, d: i32| #[trigger] target(i, d) <==> cand(i, d) by {
                    if count_in(r, i) > 1 {
                        if !r.contains(i) {
                            lemma_count_in_absent(r, i);
                        }
                        assert(counts@.contains_key(i));
                        let q = choose|q: int| 0 <= q < cents.len() && (#[trigger] cents[q]).0 == i;
                        crate::invention::lemma_entries_map_at(cents, q);
                        assert(counts@[i] == count_in(r, i));
                        assert(0 <= q < k && cents[q].0 == i && cents[q].1 > 1);
                        if d == programs_cost(best_of@, roots@, i) {
                            assert(cand(i, d));
                        }
                    }
                    if exists|q: int| 0 <= q < k && cents[q].0 == i && cents[q].1 > 1 && d == programs_cost(best_of@, roots@, i) {
                        let q = choose|q: int| 0 <= q < k && cents[q].0 == i && cents[q].1 > 1 && d == programs_cost(best_of@, roots@, i);
                        crate::invention::lemma_entries_map_at(cents, q);
                        assert(counts@[i] == count_in(r, i));
                        assert(child_candidate(*node, best_of@, i, d));
                    }
                }
                lemma_best_for_equiv(best.inventionful_cost@, base, cand, target);
            }
        },
        _ => {
            proof {
                assert forall|i: Invention, d: i32| #[trigger] target(i, d) <==> cand0(i, d) by {}
                lemma_best_for_equiv(best.inventionful_cost@, base, cand0, target);
            }
        },
    }
}

/// The best cost of each invention at `treenode`: through one of its own
/// applams, or through its children's best costs; then narrowed to the beam.
fn node_best(
    treenode: Id,
    node: &Lambda,
    applams: &Vec<AppLam>,
    var0: Id,
    best_of: &HashMap<Id, BestInventions>,
    egraph: &ProgramGraph,
    beam_size: usize,
) -> (best: BestInventions)
    requires
        egraph.wf(),
        treenode < egraph.nodes().len(),
        tables_ok(best_of@),
        tables_avoid(best_of@, var0),
        tables_valid(best_of@, *egraph),
        forall|j: int| 0 <= j < node.children().len() ==> best_of@.contains_key(#[trigger] node.children()[j]),
        forall|i: int| 0 <= i < applams@.len() ==> (#[trigger] applams@[i]).inv.body < egraph.nodes().len(),
        forall|i: int| 0 <= i < applams@.len() ==> (#[trigger] applams@[i]).inv.body == var0
            || forall|j: int| 0 <= j < applams@[i].args@.len() ==> best_of@.contains_key(#[trigger] applams@[i].args@[j]),
    ensures
        best.wf(),
        best.inventionless_cost == crate::lambda::term_cost(egraph.term(treenode as int)),
        avoids(best, var0),
        keys_valid(best, *egraph),
        best_table(best, *node, applams@, var0, best_of@, *egraph, beam_size),
{
    let mut best = BestInventions::new(egraph.inventionless_cost(treenode));
    let ghost base = best.inventionless_cost;

    // replacing this node with a call to an invention
    record_applams(&mut best, applams, var0, best_of, egraph);

    // which inventions helped the children
    let child_invs = child_inventions(node, best_of);
    let ghost cand0 = |inv: Invention, c: i32| applam_candidate(applams@, var0, best_of@, *egraph, applams@.len() as int, inv, c);
    record_child_costs(&mut best, node, &child_invs, var0, best_of, Ghost(cand0));
    let ghost pre = best.inventionful_cost;
    proof {
        let target = |inv: Invention, c: i32| is_candidate(*node, applams@, var0, best_of@, *egraph, inv, c);
        let got = |inv: Invention, c: i32| cand0(inv, c) || child_candidate(*node, best_of@, inv, c);
        assert forall|i: Invention, d: i32| #[trigger] target(i, d) <==> got(i, d) by {}
        lemma_best_for_equiv(best.inventionful_cost@, base, got, target);
    }
    narrow_beam(&mut best.inventionful_cost, beam_size);
    proof {
        let target = |inv: Invention, c: i32| is_candidate(*node, applams@, var0, best_of@, *egraph, inv, c);
        let table = best.inventionful_cost@;
        assert(best_for(pre@, base, target));
        assert forall|inv: Invention| #[trigger] table.contains_key(inv) implies {
            &&& table[inv] < best.inventionless_cost
            &&& is_candidate(*node, applams@, var0, best_of@, *egraph, inv, table[inv])
            &&& forall|c: i32| #[trigger] is_candidate(*node, applams@, var0, best_of@, *egraph, inv, c) ==> table[inv] <= c
        } by {
            assert(pre@.contains_key(inv));
            assert(target(inv, pre@[inv]));
            assert forall|c: i32| #[trigger] is_candidate(*node, applams@, var0, best_of@, *egraph, inv, c) implies table[inv] <= c by {
                assert(target(inv, c));
            }
        }
        assert forall|inv: Invention, c: i32|
            #[trigger] is_candidate(*node, applams@, var0, best_of@, *egraph, inv, c) && c < best.inventionless_cost && !table.contains_key(inv)
            implies best.inventionful_cost.entries().len() == beam_size && forall|k: Invention| #[trigger] table.contains_key(k) ==> table[k] <= c by {
            assert(target(inv, c));
            assert(pre@.contains_key(inv));
            assert(pre@[inv] <= c);
            assert(pre.entries().len() > beam_size) by {
                if pre.entries().len() <= beam_size {
                    assert(best.inventionful_cost == pre);
                }
            }
            assert forall|k: Invention| #[trigger] table.contains_key(k) implies table[k] <= c by {
                assert(pre@[k] <= pre@[inv]);
            }
        }
    }
    proof {
        let table = best.inventionful_cost@;
        assert forall|inv: Invention| #[trigger] table.contains_key(inv) implies inv.body < egraph.nodes().len() && inv.spec_valid(*egraph) by {
            assert(pre@.contains_key(inv));
            assert(is_candidate(*node, applams@, var0, best_of@, *egraph, inv, pre@[inv]));
            let c = pre@[inv];
            if applam_candidate(applams@, var0, best_of@, *egraph, applams@.len() as int, inv, c) {
                let i = choose|i: int| 0 <= i < applams@.len() && (#[trigger] applams@[i]).inv == inv && inv.spec_valid(*egraph)
                    && inv.body != var0 && c == applam_cost(applams@[i], best_of@);
                assert(applams@[i].inv.body < egraph.nodes().len());
            } else {
                assert(child_candidate(*node, best_of@, inv, c));
                match *node {
                    Lambda::Lam(b) => {
                        assert(node.children()[0] == b);
                        assert(best_of@.contains_key(b));
                    },
                    Lambda::Programs(roots) => {
                        if !child_invs@.contains(inv) {
                            lemma_count_in_absent(child_invs@, inv);
                        }
                    },
                    _ => {},
                }
                if !(*node is Lam) {
                    assert(child_invs@.contains(inv));
                    assert(in_some_child(best_of@, *node, inv));
                    let j = choose|j: int| 0 <= j < node.children().len() && #[trigger] best_of@[node.children()[j]].inventionful_cost@.contains_key(inv);
                    assert(best_of@.contains_key(node.children()[j]));
                }
            }
        }
    }
    best
}

/// The best-cost table of a node under a beam of `beam_size`: it holds at
/// most `beam_size` inventions; every recorded invention has its least
/// candidate cost, below the inventionless cost; an invention with a
/// candidate below the inventionless cost is missing only when the beam is
/// full (so more than `beam_size` inventions qualified), and then it costs at
/// least as much as every recorded one.
pub open spec fn best_table(
    best: BestInventions,
    node: Lambda,
    applams: Seq<AppLam>,
    var0: Id,
    best_of: Map<Id, BestInventions>,
    g: ProgramGraph,
    beam_size: usize,
) -> bool {
    let table = best.inventionful_cost@;
    &&& best.inventionful_cost.entries().len() <= beam_size
    &&& forall|inv: Invention| #[trigger] table.contains_key(inv) ==> {
        &&& table[inv] < best.inventionless_cost
        &&& is_candidate(node, applams, var0, best_of, g, inv, table[inv])
        &&& forall|c: i32| #[trigger] is_candidate(node, applams, var0, best_of, g, inv, c) ==> table[inv] <= c
    }
    &&& forall|inv: Invention, c: i32|
        #[trigger] is_candidate(node, applams, var0, best_of, g, inv, c) && c < best.inventionless_cost && !table.contains_key(inv)
            ==> best.inventionful_cost.entries().len() == beam_size
                && forall|k: Invention| #[trigger] table.contains_key(k) ==> table[k] <= c
}

/// While the beam is not full, a best-cost table records every invention
/// with a candidate cost below the inventionless cost, at no more than that
/// cost; so the node's cost under any invention is at most each of its
/// candidate costs.
pub proof fn law_table_below_every_candidate(
    best: BestInventions,
    node: Lambda,
    applams: Seq<AppLam>,
    var0: Id,
    best_of: Map<Id, BestInventions>,
    g: ProgramGraph,
    beam_size: usize,
    inv: Invention,
    c: i32,
)
    requires
        best.wf(),
        best_table(best, node, applams, var0, best_of, g, beam_size),
        best.inventionful_cost.entries().len() < beam_size,
        is_candidate(node, applams, var0, best_of, g, inv, c),
    ensures
        c < best.inventionless_cost ==> best.inventionful_cost@.contains_key(inv) && best.inventionful_cost@[inv] <= c,
        best.spec_cost_under_inv(inv) <= c || best.spec_cost_under_inv(inv) == best.inventionless_cost,
{
    if best.inventionful_cost@.contains_key(inv) {
        assert(best.inventionful_cost@[inv] <= c);
    }
}

/// Where the inventions with a candidate cost below the inventionless cost
/// are at most `beam_size` (all of them lie in `qualifying`), narrowing the
/// beam dropped none of them: each is recorded at no more than each of its
/// candidate costs, so the node's cost under any invention is at most each
/// of its candidate costs.
pub proof fn law_table_when_the_beam_keeps_all(
    best: BestInventions,
    node: Lambda,
    applams: Seq<AppLam>,
    var0: Id,
    best_of: Map<Id, BestInventions>,
    g: ProgramGraph,
    beam_size: usize,
    qualifying: Set<Invention>,
    inv: Invention,
    c: i32,
)
    requires
        best.wf(),
        best_table(best, node, applams, var0, best_of, g, beam_size),
        qualifying.finite(),
        qualifying.len() <= beam_size,
        forall|k: Invention, d: i32|
            #[trigger] is_candidate(node, applams, var0, best_of, g, k, d) && d < best.inventionless_cost
                ==> qualifying.contains(k),
        is_candidate(node, applams, var0, best_of, g, inv, c),
    ensures
        c < best.inventionless_cost ==> best.inventionful_cost@.contains_key(inv) && best.inventionful_cost@[inv] <= c,
        best.spec_cost_under_inv(inv) <= c || best.spec_cost_under_inv(inv) == best.inventionless_cost,
{
    let table = best.inventionful_cost@;
    if table.contains_key(inv) {
        assert(table[inv] <= c);
    } else if c < best.inventionless_cost {
        let e = best.inventionful_cost.entries();
        assert(e.len() == beam_size);
        let ks = e.map_values(|p: (Invention, i32)| p.0);
        assert(ks.no_duplicates()) by {
            assert forall|i: int, j: int| 0 <= i < ks.len() && 0 <= j < ks.len() && i != j implies ks[i] != ks[j] by {
                assert(e[i].0 != e[j].0);
            }
        }
        ks.unique_seq_to_set();
        let keys = ks.to_set();
        assert forall|k: Invention| #[trigger] keys.contains(k) implies qualifying.contains(k) by {
            let i = choose|i: int| 0 <= i < ks.len() && ks[i] == k;
            crate::invention::lemma_entries_map_at(e, i);
            assert(table.contains_key(k));
            assert(is_candidate(node, applams, var0, best_of, g, k, table[k]));
        }
        assert(!keys.contains(inv)) by {
            if keys.contains(inv) {
                let i = choose|i: int| 0 <= i < ks.len() && ks[i] == inv;
                crate::invention::lemma_entries_map_at(e, i);
            }
        }
        let more = keys.insert(inv);
        assert(more.subset_of(qualifying));
        vstd::set_lib::lemma_len_subset(keys, qualifying);
        vstd::set_lib::lemma_len_subset(more, qualifying);
        assert(more.len() == keys.len() + 1);
        assert(false);
    }
}

/// At a corpus node whose only applams are identities, while the beam is not
/// full, an invention is recorded exactly when two or more programs record
/// it and the sum of the programs' costs under it beats the inventionless
/// cost; its recorded cost is that sum.
pub proof fn law_corpus_table(
    best: BestInventions,
    roots: Vec<Id>,
    applams: Seq<AppLam>,
    var0: Id,
    best_of: Map<Id, BestInventions>,
    g: ProgramGraph,
    beam_size: usize,
    inv: Invention,
)
    requires
        best.wf(),
        best_table(best, Lambda::Programs(roots), applams, var0, best_of, g, beam_size),
        best.inventionful_cost.entries().len() < beam_size,
        forall|i: int| 0 <= i < applams.len() ==> (#[trigger] applams[i]).inv.body == var0,
    ensures
        best.inventionful_cost@.contains_key(inv) <==> count_in(child_keys(best_of, roots@), inv) > 1
            && programs_cost(best_of, roots@, inv) < best.inventionless_cost,
        best.inventionful_cost@.contains_key(inv) ==> best.inventionful_cost@[inv] == programs_cost(best_of, roots@, inv),
{
    let node = Lambda::Programs(roots);
    assert(node.children() == roots@);
    assert forall|c: i32| #[trigger] is_candidate(node, applams, var0, best_of, g, inv, c)
        <==> count_in(child_keys(best_of, roots@), inv) > 1 && c == programs_cost(best_of, roots@, inv) by {
        if applam_candidate(applams, var0, best_of, g, applams.len() as int, inv, c) {
            let i = choose|i: int| 0 <= i < applams.len() && (#[trigger] applams[i]).inv == inv && inv.spec_valid(g) && inv.body != var0
                && c == applam_cost(applams[i], best_of);
            assert(applams[i].inv.body == var0);
        }
    }
    let pc = programs_cost(best_of, roots@, inv);
    if count_in(child_keys(best_of, roots@), inv) > 1 && pc < best.inventionless_cost {
        assert(is_candidate(node, applams, var0, best_of, g, inv, pc));
    }
    if best.inventionful_cost@.contains_key(inv) {
        assert(is_candidate(node, applams, var0, best_of, g, inv, best.inventionful_cost@[inv]));
    }
}

/// The ids among the first `n` entries of `v`.
pub open spec fn prefix_ids(v: Seq<Id>, n: int) -> Set<Id> {
    Set::new(|k: Id| exists|j: int| 0 <= j < n && v[j] == k)
}

/// What the search leaves at processed node `t`: its applams, the first being
/// `(applam $0 t)`, each well formed; and its best-cost table, whose
/// inventionless cost is the size of `t`'s tree.
pub open spec fn node_result_ok(
    t: Id,
    applams: Seq<AppLam>,
    best: BestInventions,
    var0: Id,
    g: ProgramGraph,
    max_arity: usize,
    done: Set<Id>,
) -> bool {
    &&& applams.len() > 0
    &&& applams[0].inv == (Invention { body: var0, arity: 1 })
    &&& applams[0].args@ == seq![t]
    &&& applams_ok(applams, g.nodes().len(), max_arity, done)
    &&& best.wf()
    &&& best.inventionless_cost == crate::lambda::term_cost(g.term(t as int))
    &&& avoids(best, var0)
    &&& keys_valid(best, g)
    &&& forall|i: int, j: int| 1 <= i < applams.len() && 0 <= j < applams[i].args@.len() ==> #[trigger] applams[i].args@[j] < t
}

/// The applams bubbled up into node `t` from the applams of its children:
/// for `(app f x)` and `(lam b)` as the search builds them, none for a leaf
/// or a corpus node. (The identity applam comes before them.)
pub open spec fn child_views(t: Id, amap: Map<Id, Vec<AppLam>>, g: ProgramGraph, max_arity: usize) -> Seq<(Term, Seq<Id>)> {
    match g.nodes()[t as int] {
        Lambda::App(f, x) => app_views(f, x, amap[f]@, amap[x]@, g, max_arity),
        Lambda::Lam(b) => lam_views(amap[b]@, g),
        _ => Seq::empty(),
    }
}

/// The bodies of all applams in `v` are nodes below `n`.
pub open spec fn bodies_below(v: Seq<AppLam>, n: nat) -> bool {
    forall|i: int| 0 <= i < v.len() ==> (#[trigger] v[i]).inv.body < n
}

pub proof fn lemma_pairs_with_extends(fa: AppLam, xs: Seq<AppLam>, a: ProgramGraph, b: ProgramGraph, max_arity: usize)
    requires
        a.wf(),
        b.wf(),
        extends(a, b),
        fa.inv.body < a.nodes().len(),
        bodies_below(xs, a.nodes().len()),
    ensures
        pairs_with(fa, xs, a, max_arity) == pairs_with(fa, xs, b, max_arity),
    decreases xs.len(),
{
    if xs.len() > 0 {
        lemma_pairs_with_extends(fa, xs.drop_last(), a, b, max_arity);
        lemma_paired_extends(fa, xs.last(), a, b, max_arity);
    }
}

pub proof fn lemma_pairs_of_extends(fs: Seq<AppLam>, xs: Seq<AppLam>, a: ProgramGraph, b: ProgramGraph, max_arity: usize)
    requires
        a.wf(),
        b.wf(),
        extends(a, b),
        bodies_below(fs, a.nodes().len()),
        bodies_below(xs, a.nodes().len()),
    ensures
        pairs_of(fs, xs, a, max_arity) == pairs_of(fs, xs, b, max_arity),
    decreases fs.len(),
{
    if fs.len() > 0 {
        lemma_pairs_of_extends(fs.drop_last(), xs, a, b, max_arity);
        lemma_pairs_with_extends(fs.last(), xs, a, b, max_arity);
    }
}

pub proof fn lemma_app_views_extends(f: Id, x: Id, fs: Seq<AppLam>, xs: Seq<AppLam>, a: ProgramGraph, b: ProgramGraph, max_arity: usize)
    requires
        a.wf(),
        b.wf(),
        extends(a, b),
        f < a.nodes().len(),
        x < a.nodes().len(),
        bodies_below(fs, a.nodes().len()),
        bodies_below(xs, a.nodes().len()),
    ensures
        app_views(f, x, fs, xs, a, max_arity) == app_views(f, x, fs, xs, b, max_arity),
{
    lemma_extends_term(a, b, f as int);
    lemma_extends_term(a, b, x as int);
    lemma_pairs_of_extends(fs, xs, a, b, max_arity);
    assert forall|i: int| 0 <= i < fs.len() implies #[trigger] left_bubbled(fs[i], x, a) == left_bubbled(fs[i], x, b) by {
        lemma_extends_term(a, b, fs[i].inv.body as int);
    }
    assert forall|i: int| 0 <= i < xs.len() implies #[trigger] right_bubbled(xs[i], f, a) == right_bubbled(xs[i], f, b) by {
        lemma_extends_term(a, b, xs[i].inv.body as int);
    }
    assert(fs.map_values(|v: AppLam| left_bubbled(v, x, a)) =~= fs.map_values(|v: AppLam| left_bubbled(v, x, b)));
    assert(xs.map_values(|v: AppLam| right_bubbled(v, f, a)) =~= xs.map_values(|v: AppLam| right_bubbled(v, f, b)));
}

pub proof fn lemma_lam_views_extends(bs: Seq<AppLam>, a: ProgramGraph, b: ProgramGraph)
    requires
        a.wf(),
        b.wf(),
        extends(a, b),
        bodies_below(bs, a.nodes().len()),
        forall|i: int, k: int| 0 <= i < bs.len() && 0 <= k < bs[i].args@.len() ==> #[trigger] bs[i].args@[k] < a.nodes().len(),
    ensures
        lam_views(bs, a) == lam_views(bs, b),
    decreases bs.len(),
{
    if bs.len() > 0 {
        let ba = bs.last();
        assert(bs.drop_last().len() == bs.len() - 1);
        assert forall|i: int, k: int| 0 <= i < bs.drop_last().len() && 0 <= k < bs.drop_last()[i].args@.len() implies #[trigger] bs.drop_last()[i].args@[k] < a.nodes().len() by {
            assert(bs.drop_last()[i] == bs[i]);
        }
        lemma_lam_views_extends(bs.drop_last(), a, b);
        lemma_extends_term(a, b, ba.inv.body as int);
        assert forall|k: int| 0 <= k < ba.args@.len() implies #[trigger] a.term(ba.args@[k] as int) == b.term(ba.args@[k] as int) by {
            assert(bs[bs.len() - 1].args@[k] < a.nodes().len());
            lemma_extends_term(a, b, ba.args@[k] as int);
        }
        assert(refers_to_binder(ba, a) == refers_to_binder(ba, b));
    }
}

/// The children of every node in `dom` are in `dom`, and every node of
/// `dom` is a node of `g`.
pub open spec fn closed_in(dom: Set<Id>, g: ProgramGraph) -> bool {
    forall|k: Id| #[trigger] dom.contains(k) ==> k < g.nodes().len()
        && forall|j: int| 0 <= j < g.nodes()[k as int].children().len() ==> dom.contains(#[trigger] g.nodes()[k as int].children()[j])
}

/// The applams of every node in `amap` are the identity followed by the
/// applams bubbled up from its children.
pub open spec fn views_hold(amap: Map<Id, Vec<AppLam>>, g: ProgramGraph, max_arity: usize) -> bool {
    forall|t: Id| #[trigger] amap.contains_key(t) ==> applams_are(amap[t]@, 1, g, child_views(t, amap, g, max_arity))
}

proof fn lemma_child_views_stable(
    k: Id,
    amap0: Map<Id, Vec<AppLam>>,
    amap1: Map<Id, Vec<AppLam>>,
    g1: ProgramGraph,
    g2: ProgramGraph,
    max_arity: usize,
)
    requires
        g1.wf(),
        g2.wf(),
        extends(g1, g2),
        k < g1.nodes().len(),
        forall|j: int| 0 <= j < g1.nodes()[k as int].children().len() ==> amap0.contains_key(#[trigger] g1.nodes()[k as int].children()[j]),
        forall|c: Id| #[trigger] amap0.contains_key(c) ==> amap1.contains_key(c) && amap1[c] == amap0[c],
        forall|c: Id| #[trigger] amap0.contains_key(c) ==> applams_ok(amap0[c]@, g1.nodes().len(), max_arity, amap0.dom()),
        forall|c: Id| #[trigger] amap0.contains_key(c) ==> c < g1.nodes().len(),
    ensures
        child_views(k, amap1, g2, max_arity) == child_views(k, amap0, g1, max_arity),
{
    g1.lemma_wf();
    assert(g2.nodes()[k as int] == g1.nodes()[k as int]);
    let n = g1.nodes()[k as int];
    assert forall|c: Id| #[trigger] amap0.contains_key(c) implies bodies_below(amap0[c]@, g1.nodes().len())
        && forall|i: int, q: int| 0 <= i < amap0[c]@.len() && 0 <= q < amap0[c]@[i].args@.len() ==> #[trigger] amap0[c]@[i].args@[q] < g1.nodes().len() by {
        assert forall|i: int| 0 <= i < amap0[c]@.len() implies (#[trigger] amap0[c]@[i]).inv.body < g1.nodes().len() by {
            assert(applam_ok(amap0[c]@[i], g1.nodes().len(), max_arity, amap0.dom()));
        }
        assert forall|i: int, q: int| 0 <= i < amap0[c]@.len() && 0 <= q < amap0[c]@[i].args@.len() implies #[trigger] amap0[c]@[i].args@[q] < g1.nodes().len() by {
            assert(applam_ok(amap0[c]@[i], g1.nodes().len(), max_arity, amap0.dom()));
            assert(amap0.dom().contains(amap0[c]@[i].args@[q]));
        }
    }
    match n {
        Lambda::App(f, x) => {
            assert(n.children()[0] == f && n.children()[1] == x);
            assert(amap0.contains_key(f) && amap0.contains_key(x));
            lemma_app_views_extends(f, x, amap0[f]@, amap0[x]@, g1, g2, max_arity);
        },
        Lambda::Lam(b) => {
            assert(n.children()[0] == b);
            assert(amap0.contains_key(b));
            lemma_lam_views_extends(amap0[b]@, g1, g2);
        },
        _ => {},
    }
}

/// The ids whose tables `is_candidate` reads for `node` and its applams:
/// the node's children and the arguments of its applams other than the
/// identity.
pub open spec fn reads_tables(node: Lambda, applams: Seq<AppLam>, var0: Id, k: Id) -> bool {
    ||| node.children().contains(k)
    ||| exists|i: int, j: int| 0 <= i < applams.len() && applams[i].inv.body != var0 && 0 <= j < applams[i].args@.len()
        && #[trigger] applams[i].args@[j] == k
}

proof fn lemma_child_keys_stable(b0: Map<Id, BestInventions>, b1: Map<Id, BestInventions>, children: Seq<Id>)
    requires
        forall|j: int| 0 <= j < children.len() ==> b1[#[trigger] children[j]] == b0[children[j]],
    ensures
        child_keys(b1, children) == child_keys(b0, children),
    decreases children.len(),
{
    if children.len() > 0 {
        lemma_child_keys_stable(b0, b1, children.drop_last());
        assert(b1[children[children.len() - 1]] == b0[children[children.len() - 1]]);
    }
}

/// What a node's candidates are depends only on the tables it reads and on
/// the trees of its applam bodies.
proof fn lemma_candidate_stable(
    node: Lambda,
    node2: Lambda,
    applams: Seq<AppLam>,
    var0: Id,
    b0: Map<Id, BestInventions>,
    b1: Map<Id, BestInventions>,
    g1: ProgramGraph,
    g2: ProgramGraph,
)
    requires
        g1.wf(),
        g2.wf(),
        extends(g1, g2),
        node2.same(node),
        forall|i: int| 0 <= i < applams.len() ==> (#[trigger] applams[i]).inv.body < g1.nodes().len(),
        forall|k: Id| #[trigger] reads_tables(node, applams, var0, k) ==> b1[k] == b0[k],
    ensures
        forall|inv: Invention, c: i32| #[trigger] is_candidate(node2, applams, var0, b1, g2, inv, c)
            == is_candidate(node, applams, var0, b0, g1, inv, c),
{
    assert forall|i: int| 0 <= i < applams.len() && applams[i].inv.body != var0 implies
        #[trigger] applam_cost(applams[i], b1) == applam_cost(applams[i], b0) by {
        let a = applams[i];
        assert forall|j: int| 0 <= j < a.args@.len() implies b1[#[trigger] a.args@[j]] == b0[a.args@[j]] by {
            assert(reads_tables(node, applams, var0, a.args@[j]));
        }
        assert(a.args@.map_values(|arg: Id| b1[arg].spec_cost_under_inv(a.inv)) =~= a.args@.map_values(|arg: Id| b0[arg].spec_cost_under_inv(a.inv)));
    }
    assert forall|i: int| 0 <= i < applams.len() implies #[trigger] applams[i].inv.spec_valid(g2) == applams[i].inv.spec_valid(g1) by {
        lemma_extends_term(g1, g2, applams[i].inv.body as int);
    }
    assert(node2.children() == node.children());
    assert forall|j: int| 0 <= j < node.children().len() implies b1[#[trigger] node.children()[j]] == b0[node.children()[j]] by {
        assert(node.children().contains(node.children()[j]));
        assert(reads_tables(node, applams, var0, node.children()[j]));
    }
    lemma_child_keys_stable(b0, b1, node.children());
    assert forall|inv: Invention, c: i32| #[trigger] is_candidate(node2, applams, var0, b1, g2, inv, c)
        == is_candidate(node, applams, var0, b0, g1, inv, c) by {
        assert(applam_candidate(applams, var0, b1, g2, applams.len() as int, inv, c) == applam_candidate(applams, var0, b0, g1, applams.len() as int, inv, c)) by {
            if applam_candidate(applams, var0, b1, g2, applams.len() as int, inv, c) {
                let i = choose|i: int| 0 <= i < applams.len() && (#[trigger] applams[i]).inv == inv && inv.spec_valid(g2) && inv.body != var0
                    && c == applam_cost(applams[i], b1);
                assert(applam_cost(applams[i], b1) == applam_cost(applams[i], b0));
                assert(applams[i].inv.spec_valid(g2) == applams[i].inv.spec_valid(g1));
            }
            if applam_candidate(applams, var0, b0, g1, applams.len() as int, inv, c) {
                let i = choose|i: int| 0 <= i < applams.len() && (#[trigger] applams[i]).inv == inv && inv.spec_valid(g1) && inv.body != var0
                    && c == applam_cost(applams[i], b0);
                assert(applam_cost(applams[i], b1) == applam_cost(applams[i], b0));
                assert(applams[i].inv.spec_valid(g2) == applams[i].inv.spec_valid(g1));
            }
        }
        match (node, node2) {
            (Lambda::App(f, x), Lambda::App(_, _)) => {
                assert(node.children()[0] == f && node.children()[1] == x);
            },
            (Lambda::Lam(b), Lambda::Lam(_)) => {
                assert(node.children()[0] == b);
            },
            (Lambda::Programs(roots), Lambda::Programs(roots2)) => {
                assert(roots2@ == roots@);
                assert(roots@.map_values(|r: Id| b1[r].spec_cost_under_inv(inv)) =~= roots@.map_values(|r: Id| b0[r].spec_cost_under_inv(inv)));
            },
            _ => {},
        }
    }
}

proof fn lemma_best_table_transfer(
    best: BestInventions,
    node: Lambda,
    node2: Lambda,
    applams: Seq<AppLam>,
    var0: Id,
    b0: Map<Id, BestInventions>,
    b1: Map<Id, BestInventions>,
    g1: ProgramGraph,
    g2: ProgramGraph,
    beam_size: usize,
)
    requires
        best_table(best, node, applams, var0, b0, g1, beam_size),
        forall|inv: Invention, c: i32| #[trigger] is_candidate(node2, applams, var0, b1, g2, inv, c)
            == is_candidate(node, applams, var0, b0, g1, inv, c),
    ensures
        best_table(best, node2, applams, var0, b1, g2, beam_size),
{
    let table = best.inventionful_cost@;
    assert forall|inv: Invention| #[trigger] table.contains_key(inv) implies {
        &&& table[inv] < best.inventionless_cost
        &&& is_candidate(node2, applams, var0, b1, g2, inv, table[inv])
        &&& forall|c: i32| #[trigger] is_candidate(node2, applams, var0, b1, g2, inv, c) ==> table[inv] <= c
    } by {
        assert(is_candidate(node2, applams, var0, b1, g2, inv, table[inv]) == is_candidate(node, applams, var0, b0, g1, inv, table[inv]));
        assert forall|c: i32| #[trigger] is_candidate(node2, applams, var0, b1, g2, inv, c) implies table[inv] <= c by {
            assert(is_candidate(node, applams, var0, b0, g1, inv, c));
        }
    }
    assert forall|inv: Invention, c: i32|
        #[trigger] is_candidate(node2, applams, var0, b1, g2, inv, c) && c < best.inventionless_cost && !table.contains_key(inv)
        implies best.inventionful_cost.entries().len() == beam_size && forall|k: Invention| #[trigger] table.contains_key(k) ==> table[k] <= c by {
        assert(is_candidate(node, applams, var0, b0, g1, inv, c));
    }
}

/// Every table in `bmap` is the best-cost table of its node.
pub open spec fn tables_hold(amap: Map<Id, Vec<AppLam>>, bmap: Map<Id, BestInventions>, var0: Id, g: ProgramGraph, beam_size: usize) -> bool {
    forall|t: Id| #[trigger] bmap.contains_key(t) ==> best_table(bmap[t], g.nodes()[t as int], amap[t]@, var0, bmap, g, beam_size)
}

/// With the tables at every node exact.
pub open spec fn search_exact(
    applams_of: Map<Id, Vec<AppLam>>,
    best_of: Map<Id, BestInventions>,
    g: ProgramGraph,
    max_arity: usize,
    beam_size: usize,
) -> bool {
    exists|var0: Id| #[trigger] search_result(applams_of, best_of, var0, g, max_arity) && tables_hold(applams_of, best_of, var0, g, beam_size)
}

/// The search results cover a set of nodes closed under children, with the
/// properties the search guarantees at each of them.
pub open spec fn search_result(
    applams_of: Map<Id, Vec<AppLam>>,
    best_of: Map<Id, BestInventions>,
    var0: Id,
    g: ProgramGraph,
    max_arity: usize,
) -> bool {
    &&& applams_of.dom() == best_of.dom()
    &&& var0 < g.nodes().len()
    &&& g.term(var0 as int) == Term::Var(0)
    &&& forall|t: Id| #[trigger] applams_of.contains_key(t) ==> {
        &&& t < g.nodes().len()
        &&& node_result_ok(t, applams_of[t]@, best_of[t], var0, g, max_arity, applams_of.dom())
        &&& forall|j: int| 0 <= j < g.nodes()[t as int].children().len() ==> applams_of.contains_key(#[trigger] g.nodes()[t as int].children()[j])
    }
}

/// Some node holds `$0` and the results meet `search_result` with it.
pub open spec fn search_done(
    applams_of: Map<Id, Vec<AppLam>>,
    best_of: Map<Id, BestInventions>,
    g: ProgramGraph,
    max_arity: usize,
) -> bool {
    exists|var0: Id| #[trigger] search_result(applams_of, best_of, var0, g, max_arity)
}

pub proof fn lemma_node_result_mono(
    t: Id,
    applams: Seq<AppLam>,
    best: BestInventions,
    var0: Id,
    ga: ProgramGraph,
    gb: ProgramGraph,
    max_arity: usize,
    d1: Set<Id>,
    d2: Set<Id>,
)
    requires
        ga.wf(),
        gb.wf(),
        extends(ga, gb),
        t < ga.nodes().len(),
        d1.subset_of(d2),
        node_result_ok(t, applams, best, var0, ga, max_arity, d1),
    ensures
        node_result_ok(t, applams, best, var0, gb, max_arity, d2),
{
    lemma_applams_ok_mono(applams, ga.nodes().len(), gb.nodes().len(), max_arity, d1, d2);
    lemma_extends_term(ga, gb, t as int);
    assert forall|inv: Invention| #[trigger] best.inventionful_cost@.contains_key(inv) implies inv.body < gb.nodes().len() && inv.spec_valid(gb) by {
        lemma_extends_term(ga, gb, inv.body as int);
    }
}

/// The applams of an already processed node `c` below `t` only use
/// arguments below `t`.
pub proof fn lemma_result_below(
    c: Id,
    applams: Seq<AppLam>,
    best: BestInventions,
    var0: Id,
    g: ProgramGraph,
    max_arity: usize,
    done: Set<Id>,
    t: Id,
)
    requires
        node_result_ok(c, applams, best, var0, g, max_arity, done),
        c < t,
        done.contains(c),
    ensures
        applams_ok(applams, g.nodes().len(), max_arity, Set::new(|k: Id| done.contains(k) && k < t)),
{
    let below = Set::new(|k: Id| done.contains(k) && k < t);
    assert forall|i: int| 0 <= i < applams.len() implies applam_ok(#[trigger] applams[i], g.nodes().len(), max_arity, below) by {
        assert(applam_ok(applams[i], g.nodes().len(), max_arity, done));
        assert forall|j: int| 0 <= j < applams[i].args@.len() implies below.contains(#[trigger] applams[i].args@[j]) by {
            assert(done.contains(applams[i].args@[j]));
            if i >= 1 {
                assert(applams[i].args@[j] < c);
            } else {
                assert(applams[0].args@[0] == c);
            }
        }
    }
}

/// Runs the search over `treenodes`, which lists children before parents:
/// for each node, its applams and the best cost of each invention at it.
/// When no node is listed twice, the applams of every node are the identity
/// followed by exactly those bubbled up from its children (`views_hold`), and
/// every table is the node's best-cost table (`search_exact`).
pub fn run_inversions(
    treenodes: &Vec<Id>,
    max_arity: usize,
    beam_size: usize,
    egraph: &mut ProgramGraph,
) -> (r: (HashMap<Id, Vec<AppLam>>, HashMap<Id, BestInventions>))
    requires
        old(egraph).wf(),
        ordered(old(egraph).nodes(), treenodes@),
        1 <= max_arity <= i32::MAX,
    ensures
        final(egraph).wf(),
        extends(*old(egraph), *final(egraph)),
        r.0@.dom() == prefix_ids(treenodes@, treenodes@.len() as int),
        r.1@.dom() == prefix_ids(treenodes@, treenodes@.len() as int),
        search_done(r.0@, r.1@, *final(egraph), max_arity),
        treenodes@.no_duplicates() ==> views_hold(r.0@, *final(egraph), max_arity),
        treenodes@.no_duplicates() ==> search_exact(r.0@, r.1@, *final(egraph), max_arity, beam_size),
        treenodes@.no_duplicates() && steps_keep_meaning(r.0@, *final(egraph), max_arity) ==> forall|t: Id, k: int|
            #![trigger r.0@[t]@[k]]
            r.0@.contains_key(t) && 0 <= k < r.0@[t]@.len() ==> applam_term(r.0@[t]@[k], *final(egraph))
                == final(egraph).term(t as int),
{
    let mut applams_of_treenode: HashMap<Id, Vec<AppLam>> = HashMap::new();
    let mut best_inventions_of_treenode: HashMap<Id, BestInventions> = HashMap::new();
    let ghost g0 = *egraph;

    proof {
        egraph.lemma_wf();
    }
    let var0 = egraph.add(Lambda::Var(0));
    proof {
        assert(extends(g0, *egraph));
        crate::graph::lemma_children_before_push(g0.nodes(), Lambda::Var(0));
    }

    let mut caches = Caches::new(max_arity, Ghost(*egraph));

    let mut p: usize = 0;
    while p < treenodes.len()
        invariant
            egraph.wf(),
            g0.wf(),
            extends(g0, *egraph),
            caches.ok(*egraph, max_arity),
            ordered(g0.nodes(), treenodes@),
            1 <= max_arity <= i32::MAX,
            p <= treenodes@.len(),
            var0 < egraph.nodes().len(),
            egraph.term(var0 as int) == Term::Var(0),
            applams_of_treenode@.dom() == prefix_ids(treenodes@, p as int),
            best_inventions_of_treenode@.dom() == prefix_ids(treenodes@, p as int),
            forall|t: Id| #[trigger] applams_of_treenode@.contains_key(t) ==> node_result_ok(
                t, applams_of_treenode@[t]@, best_inventions_of_treenode@[t], var0, *egraph, max_arity,
                applams_of_treenode@.dom()),
            treenodes@.no_duplicates() ==> views_hold(applams_of_treenode@, *egraph, max_arity),
            treenodes@.no_duplicates() ==> tables_hold(applams_of_treenode@, best_inventions_of_treenode@, var0, *egraph, beam_size),
            closed_in(applams_of_treenode@.dom(), g0),
        decreases treenodes@.len() - p,
    {
        let treenode = treenodes[p];
        let ghost done = applams_of_treenode@.dom();
        let ghost g1 = *egraph;
        proof {
            assert(treenodes@[p as int] < g0.nodes().len());
            assert forall|k: Id| #[trigger] done.contains(k) implies k < egraph.nodes().len() by {
                let j = choose|j: int| 0 <= j < p && treenodes@[j] == k;
                assert(treenodes@[j] < g0.nodes().len());
            }
            assert(tables_ok(best_inventions_of_treenode@)) by {
                assert forall|k: Id| #[trigger] best_inventions_of_treenode@.contains_key(k) implies best_inventions_of_treenode@[k].wf() by {
                    assert(applams_of_treenode@.contains_key(k));
                }
            }
            assert(tables_avoid(best_inventions_of_treenode@, var0)) by {
                assert forall|k: Id| #[trigger] best_inventions_of_treenode@.contains_key(k) implies avoids(best_inventions_of_treenode@[k], var0) by {
                    assert(applams_of_treenode@.contains_key(k));
                }
            }
        }
        let node = egraph.node(treenode).duplicate();
        proof {
            assert(egraph.nodes()[treenode as int] == g0.nodes()[treenode as int]);
            assert forall|j: int| 0 <= j < node.children().len() implies #[trigger] done.contains(node.children()[j]) by {
                assert(node.children() == g0.nodes()[treenodes@[p as int] as int].children());
                assert(treenodes@.take(p as int).contains(g0.nodes()[treenodes@[p as int] as int].children()[j]));
                let q = choose|q: int| 0 <= q < treenodes@.take(p as int).len() && treenodes@.take(p as int)[q] == node.children()[j];
                assert(treenodes@[q] == node.children()[j]);
            }
            assert forall|t: Id| #[trigger] applams_of_treenode@.contains_key(t) implies applams_ok(
                applams_of_treenode@[t]@, egraph.nodes().len(), max_arity, done) by {
                assert(node_result_ok(t, applams_of_treenode@[t]@, best_inventions_of_treenode@[t], var0, *egraph, max_arity, done));
            }
        }

        let ghost below = Set::new(|k: Id| done.contains(k) && k < treenode);
        proof {
            egraph.lemma_wf();
            assert forall|j: int| 0 <= j < node.children().len() implies applams_ok(
                applams_of_treenode@[#[trigger] node.children()[j]]@, egraph.nodes().len(), max_arity, below) by {
                let c = node.children()[j];
                assert(egraph.nodes()[treenode as int].children()[j] < treenode);
                assert(done.contains(c));
                lemma_result_below(c, applams_of_treenode@[c]@, best_inventions_of_treenode@[c], var0, *egraph, max_arity, done, treenode);
            }
        }
        let mut rest: Vec<AppLam> = Vec::new();
        let ghost cv = child_views(treenode, applams_of_treenode@, g1, max_arity);
        match &node {
            Lambda::App(f, x) => {
                assert(node.children()[0] == *f && node.children()[1] == *x);
                let f_applams = applams_of_treenode.get(f).unwrap();
                let x_applams = applams_of_treenode.get(x).unwrap();
                app_applams(&mut rest, *f, *x, f_applams, x_applams, max_arity, egraph, &mut caches, Ghost(below));
                assert(applams_are(rest@, 0, *egraph, cv));
            },
            Lambda::Lam(b) => {
                assert(node.children()[0] == *b);
                let b_applams = applams_of_treenode.get(b).unwrap();
                lam_applams(&mut rest, b_applams, max_arity, egraph, &mut caches, Ghost(below));
                assert(applams_are(rest@, 0, *egraph, cv));
            },
            _ => {
                assert(applams_are(rest@, 0, *egraph, cv));
            },
        }
        proof {
            assert forall|i: int| 0 <= i < rest@.len() implies applam_ok(#[trigger] rest@[i], egraph.nodes().len(), max_arity, done) by {
                assert(applam_ok(rest@[i], egraph.nodes().len(), max_arity, below));
                assert forall|j: int| 0 <= j < rest@[i].args@.len() implies done.contains(#[trigger] rest@[i].args@[j]) by {
                    assert(below.contains(rest@[i].args@[j]));
                }
            }
        }
        let ghost g2 = *egraph;
        let mut applams: Vec<AppLam> = Vec::new();
        let mut only = Vec::new();
        only.push(treenode);
        applams.push(AppLam::new(var0, only));
        let ghost rest_v = rest@;
        applams.append(&mut rest);
        proof {
            lemma_extends_term(g1, g2, var0 as int);
            lemma_extends_term(g0, g2, treenode as int);
            lemma_extends_term(g0, g1, treenode as int);
            assert forall|i: int| 0 <= i < applams@.len() implies (#[trigger] applams@[i]).inv.body < egraph.nodes().len() by {
                if i > 0 {
                    assert(applams@[i] == rest_v[i - 1]);
                    assert(applam_ok(rest_v[i - 1], egraph.nodes().len(), max_arity, done));
                }
            }
            assert forall|i: int| 0 <= i < applams@.len() implies (#[trigger] applams@[i]).inv.body == var0
                || forall|j: int| 0 <= j < applams@[i].args@.len() ==> best_inventions_of_treenode@.contains_key(#[trigger] applams@[i].args@[j]) by {
                if i > 0 {
                    assert(applams@[i] == rest_v[i - 1]);
                    assert(applam_ok(rest_v[i - 1], egraph.nodes().len(), max_arity, done));
                }
            }
        }
        proof {
            assert forall|k: Id| #[trigger] best_inventions_of_treenode@.contains_key(k)
                implies keys_valid(best_inventions_of_treenode@[k], *egraph) by {
                assert(applams_of_treenode@.contains_key(k));
                assert(node_result_ok(k, applams_of_treenode@[k]@, best_inventions_of_treenode@[k], var0, g1, max_arity, done));
                assert forall|inv: Invention| #[trigger] best_inventions_of_treenode@[k].inventionful_cost@.contains_key(inv)
                    implies inv.body < egraph.nodes().len() && inv.spec_valid(*egraph) by {
                    lemma_extends_term(g1, *egraph, inv.body as int);
                }
            }
        }
        let best = node_best(treenode, &node, &applams, var0, &best_inventions_of_treenode, egraph, beam_size);
        let ghost a_new = applams@;
        let ghost b_new = best;
        let ghost amap0 = applams_of_treenode@;
        let ghost bmap0 = best_inventions_of_treenode@;
        proof {
            assert forall|k: int| 0 <= k < cv.len() implies applam_is(#[trigger] a_new[1 + k], g2, cv[k].0, cv[k].1) by {
                assert(a_new[1 + k] == rest_v[k]);
                assert(applam_is(rest_v[0 + k], g2, cv[k].0, cv[k].1));
            }
            assert(applams_are(a_new, 1, g2, cv));
        }
        applams_of_treenode.insert(treenode, applams);
        best_inventions_of_treenode.insert(treenode, best);
        proof {
            if treenodes@.no_duplicates() {
                assert(!done.contains(treenode)) by {
                    if done.contains(treenode) {
                        let j = choose|j: int| 0 <= j < p && treenodes@[j] == treenode;
                        assert(treenodes@[j] == treenodes@[p as int]);
                    }
                }
                let amap1 = applams_of_treenode@;
                assert forall|c: Id| #[trigger] amap0.contains_key(c) implies amap1.contains_key(c) && amap1[c] == amap0[c] by {}
                assert forall|c: Id| #[trigger] amap0.contains_key(c) implies applams_ok(amap0[c]@, g1.nodes().len(), max_arity, amap0.dom()) by {
                    assert(node_result_ok(c, amap0[c]@, bmap0[c], var0, g1, max_arity, done));
                }
                assert forall|t: Id| #[trigger] amap1.contains_key(t) implies applams_are(amap1[t]@, 1, *egraph, child_views(t, amap1, *egraph, max_arity)) by {
                    if t == treenode {
                        assert(g1.nodes()[t as int] == g0.nodes()[t as int]);
                        lemma_child_views_stable(t, amap0, amap1, g1, *egraph, max_arity);
                    } else {
                        assert(amap0.contains_key(t));
                        assert(applams_are(amap0[t]@, 1, g1, child_views(t, amap0, g1, max_arity)));
                        assert(g1.nodes()[t as int] == g0.nodes()[t as int]);
                        lemma_child_views_stable(t, amap0, amap1, g1, *egraph, max_arity);
                        lemma_applams_are_extends(amap0[t]@, 1, g1, *egraph, child_views(t, amap0, g1, max_arity));
                    }
                }
                let bmap1 = best_inventions_of_treenode@;
                assert forall|t: Id| #[trigger] bmap1.contains_key(t) implies best_table(bmap1[t], egraph.nodes()[t as int], amap1[t]@, var0, bmap1, *egraph, beam_size) by {
                    if t == treenode {
                        assert(egraph.nodes()[t as int] == g1.nodes()[t as int]);
                        crate::graph::same_symmetric(node, g1.nodes()[t as int]);
                        assert forall|k: Id| #[trigger] reads_tables(node, a_new, var0, k) implies bmap1[k] == bmap0[k] by {
                            if node.children().contains(k) {
                                let j = choose|j: int| 0 <= j < node.children().len() && node.children()[j] == k;
                                assert(done.contains(node.children()[j]));
                            } else {
                                let (i, j) = choose|i: int, j: int| 0 <= i < a_new.len() && a_new[i].inv.body != var0 && 0 <= j < a_new[i].args@.len()
                                    && #[trigger] a_new[i].args@[j] == k;
                                assert(i > 0);
                                assert(a_new[i] == rest_v[i - 1]);
                                assert(applam_ok(rest_v[i - 1], egraph.nodes().len(), max_arity, done));
                                assert(done.contains(k));
                            }
                        }
                        lemma_candidate_stable(node, egraph.nodes()[t as int], a_new, var0, bmap0, bmap1, *egraph, *egraph);
                        lemma_best_table_transfer(b_new, node, egraph.nodes()[t as int], a_new, var0, bmap0, bmap1, *egraph, *egraph, beam_size);
                    } else {
                        assert(bmap0.contains_key(t));
                        assert(amap0.contains_key(t));
                        let n0 = g1.nodes()[t as int];
                        assert(egraph.nodes()[t as int] == n0);
                        assert(node_result_ok(t, amap0[t]@, bmap0[t], var0, g1, max_arity, done));
                        assert forall|k: Id| #[trigger] reads_tables(n0, amap0[t]@, var0, k) implies bmap1[k] == bmap0[k] by {
                            if n0.children().contains(k) {
                                let j = choose|j: int| 0 <= j < n0.children().len() && n0.children()[j] == k;
                                assert(g0.nodes()[t as int] == n0);
                                assert(done.contains(n0.children()[j]));
                            } else {
                                let (i, j) = choose|i: int, j: int| 0 <= i < amap0[t]@.len() && amap0[t]@[i].inv.body != var0 && 0 <= j < amap0[t]@[i].args@.len()
                                    && #[trigger] amap0[t]@[i].args@[j] == k;
                                assert(applam_ok(amap0[t]@[i], g1.nodes().len(), max_arity, done));
                            }
                        }
                        assert forall|i: int| 0 <= i < amap0[t]@.len() implies (#[trigger] amap0[t]@[i]).inv.body < g1.nodes().len() by {
                            assert(applam_ok(amap0[t]@[i], g1.nodes().len(), max_arity, done));
                        }
                        crate::graph::same_symmetric(n0, n0);
                        lemma_candidate_stable(n0, n0, amap0[t]@, var0, bmap0, bmap1, g1, *egraph);
                        lemma_best_table_transfer(bmap0[t], n0, n0, amap0[t]@, var0, bmap0, bmap1, g1, *egraph, beam_size);
                    }
                }
            }
        }
        proof {
            let done2 = done.insert(treenode);
            assert(prefix_ids(treenodes@, p + 1) =~= done2) by {
                assert forall|k: Id| prefix_ids(treenodes@, p + 1).contains(k) implies done2.contains(k) by {
                    let j = choose|j: int| 0 <= j < p + 1 && treenodes@[j] == k;
                    if j < p {
                        assert(prefix_ids(treenodes@, p as int).contains(k));
                    }
                }
                assert forall|k: Id| done2.contains(k) implies prefix_ids(treenodes@, p + 1).contains(k) by {
                    if k != treenode {
                        let j = choose|j: int| 0 <= j < p && treenodes@[j] == k;
                    }
                }
            }
            assert(applams_of_treenode@.dom() =~= done2);
            assert(best_inventions_of_treenode@.dom() =~= done2);
            lemma_applams_ok_mono(rest_v, egraph.nodes().len(), egraph.nodes().len(), max_arity, done, done2);
            assert forall|i: int, j: int| 1 <= i < a_new.len() && 0 <= j < a_new[i].args@.len() implies #[trigger] a_new[i].args@[j] < treenode by {
                assert(a_new[i] == rest_v[i - 1]);
                assert(applam_ok(rest_v[i - 1], g2.nodes().len(), max_arity, below));
                assert(below.contains(rest_v[i - 1].args@[j]));
            }
            assert(node_result_ok(treenode, a_new, b_new, var0, *egraph, max_arity, done2)) by {
                assert forall|i: int| 0 <= i < a_new.len() implies applam_ok(#[trigger] a_new[i], egraph.nodes().len(), max_arity, done2) by {
                    if i > 0 {
                        assert(a_new[i] == rest_v[i - 1]);
                    } else {
                        assert(a_new[0].args@ == seq![treenode]);
                        assert(a_new[0].args@[0] == treenode);
                    }
                }
            }
            assert forall|t: Id| #[trigger] applams_of_treenode@.contains_key(t) implies node_result_ok(
                t, applams_of_treenode@[t]@, best_inventions_of_treenode@[t], var0, *egraph, max_arity,
                applams_of_treenode@.dom()) by {
                if t != treenode {
                    assert(amap0.contains_key(t));
                    assert(node_result_ok(t, amap0[t]@, bmap0[t], var0, g1, max_arity, done));
                    lemma_node_result_mono(t, amap0[t]@, bmap0[t], var0, g1, *egraph, max_arity, done, done2);
                }
            }
        }
        proof {
            let amap1 = applams_of_treenode@;
            assert forall|k: Id| #[trigger] amap1.dom().contains(k) implies k < g0.nodes().len()
                && forall|j: int| 0 <= j < g0.nodes()[k as int].children().len() ==> amap1.dom().contains(#[trigger] g0.nodes()[k as int].children()[j]) by {
                if k == treenode {
                    assert(g0.nodes()[k as int] == g1.nodes()[k as int]);
                    assert forall|j: int| 0 <= j < g0.nodes()[k as int].children().len() implies amap1.dom().contains(#[trigger] g0.nodes()[k as int].children()[j]) by {
                        assert(node.children()[j] == g0.nodes()[k as int].children()[j]);
                        assert(done.contains(node.children()[j]));
                    }
                } else {
                    assert(amap0.contains_key(k));
                }
            }
        }
        p = p + 1;
    }
    proof {
        assert(treenodes@.take(treenodes@.len() as int) =~= treenodes@);
        let amap = applams_of_treenode@;
        assert forall|t: Id| #[trigger] amap.contains_key(t) implies {
            &&& t < egraph.nodes().len()
            &&& forall|j: int| 0 <= j < egraph.nodes()[t as int].children().len() ==> amap.contains_key(#[trigger] egraph.nodes()[t as int].children()[j])
        } by {
            let q = choose|q: int| 0 <= q < treenodes@.len() && treenodes@[q] == t;
            assert(t < g0.nodes().len());
            assert(egraph.nodes()[t as int] == g0.nodes()[t as int]);
            assert forall|j: int| 0 <= j < egraph.nodes()[t as int].children().len() implies amap.contains_key(#[trigger] egraph.nodes()[t as int].children()[j]) by {
                let c = g0.nodes()[treenodes@[q] as int].children()[j];
                assert(treenodes@.take(q).contains(c));
                let w = choose|w: int| 0 <= w < treenodes@.take(q).len() && treenodes@.take(q)[w] == c;
                assert(treenodes@[w] == c);
                assert(prefix_ids(treenodes@, treenodes@.len() as int).contains(c));
            }
        }
        assert(search_result(applams_of_treenode@, best_inventions_of_treenode@, var0, *egraph, max_arity));
        assert(search_done(applams_of_treenode@, best_inventions_of_treenode@, *egraph, max_arity));
        if treenodes@.no_duplicates() {
            assert(search_exact(applams_of_treenode@, best_inventions_of_treenode@, *egraph, max_arity, beam_size));
            if steps_keep_meaning(applams_of_treenode@, *egraph, max_arity) {
                assert(views_hold(applams_of_treenode@, *egraph, max_arity));
                law_applams_stand_for_their_nodes(applams_of_treenode@, best_inventions_of_treenode@, *egraph, max_arity, var0);
            }
        }
    }
    (applams_of_treenode, best_inventions_of_treenode)
}

} // verus!
