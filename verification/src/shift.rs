//! Rewriting the free variables of a stored term (de Bruijn shifting and its
//! relatives), with memoisation keyed by node and binder depth.

use std::collections::HashMap;
use std::collections::HashSet;
use vstd::prelude::*;
use crate::graph::{children_in, programs_closed, node_term, ProgramGraph};
use crate::lambda::{children_before, outer_index, term_of, upward_refs, Id, Lambda, Term};

verus! {

broadcast use vstd::std_specs::hash::group_hash_axioms;

/// How a free variable is rewritten. A free variable `$actual_idx` met under
/// `depth` binders of the term being rewritten points `which_upward_ref =
/// actual_idx - depth` binders above the term's root.
pub enum VarMod {
    /// Every free variable points `incr_by` binders further out.
    Shift { incr_by: i32 },
    /// References to the binder just above (`which_upward_ref == 0`) become
    /// the tree of `replace_with`, shifted over the binders crossed; the
    /// others point one binder closer.
    Inline { replace_with: Id },
    /// A free variable with `which_upward_ref < arity` moves by
    /// `shift_table[which_upward_ref]`; the others stay.
    Reindex { shift_table: Vec<i32>, arity: i32 },
    /// Moving a body over one more binder: references to the argument slots
    /// (`which_upward_ref < arity`) move one further out, references to the
    /// binder being crossed (`which_upward_ref == arity`) become `$0`-based
    /// references to it, the others stay.
    OverLambda { arity: i32 },
}

/// The mathematical content of a `VarMod`.
pub enum VarModView {
    Shift(i32),
    Inline(Term),
    Reindex(Seq<i32>, i32),
    OverLambda(i32),
    /// Substituting arguments for the binders just above: a reference to
    /// `$i` with `i < args.len()` becomes `args[i]` (shifted over the
    /// binders crossed), the others point `args.len()` binders closer.
    Fill(Seq<Term>),
}

impl VarMod {
    /// What this rewrite means in graph `g`.
    pub open spec fn view_in(&self, g: ProgramGraph) -> VarModView {
        match self {
            VarMod::Shift { incr_by } => VarModView::Shift(*incr_by),
            VarMod::Inline { replace_with } => VarModView::Inline(g.term(*replace_with as int)),
            VarMod::Reindex { shift_table, arity } => VarModView::Reindex(shift_table@, *arity),
            VarMod::OverLambda { arity } => VarModView::OverLambda(*arity),
        }
    }

    /// The shift table covers every argument slot; the replacement is a node
    /// of `g`.
    pub open spec fn wf_in(&self, g: ProgramGraph) -> bool {
        match self {
            VarMod::Reindex { shift_table, arity } => 0 <= *arity && shift_table@.len() == *arity as int,
            VarMod::Inline { replace_with } => *replace_with < g.nodes().len(),
            _ => true,
        }
    }

    /// `vm` is what this rewrite means in `g`.
    pub open spec fn denotes(&self, vm: VarModView, g: ProgramGraph) -> bool {
        self.wf_in(g) && vm == self.view_in(g)
    }

    /// Rewrites that may call a shift come after the others.
    pub open spec fn rank(&self) -> nat {
        match self {
            VarMod::Inline { .. } => 1,
            _ => 0,
        }
    }
}

/// The term that replaces free variable `$actual` met under `depth` binders.
pub open spec fn var_image(vm: VarModView, actual: i32, depth: i32, which: i32) -> Term {
    match vm {
        VarModView::Shift(incr) => Term::Var(actual.wrapping_add(incr)),
        VarModView::Inline(replacement) => if which == 0 {
            shift_term(replacement, depth)
        } else {
            Term::Var(actual.wrapping_sub(1))
        },
        VarModView::Reindex(table, arity) => if 0 <= which < arity {
            Term::Var(actual.wrapping_add(table[which as int]))
        } else {
            Term::Var(actual)
        },
        VarModView::Fill(args) => if 0 <= which < args.len() {
            shift_term(args[which as int], depth)
        } else {
            Term::Var(actual.wrapping_sub(args.len() as i32))
        },
        VarModView::OverLambda(arity) => if which == arity {
            Term::Var(actual.wrapping_sub(arity))
        } else if which < arity {
            Term::Var(actual.wrapping_add(1))
        } else {
            Term::Var(actual)
        },
    }
}

/// Every free variable of `t` is bound inside the `depth` binders around it.
pub open spec fn refs_below(t: Term, depth: i32) -> bool {
    forall|r: i32| #[trigger] upward_refs(t).contains(r) ==> r < depth
}

/// `t`, found under `depth` binders, with each variable that is free at the
/// outermost level rewritten by `vm`.
pub open spec fn modify_term(t: Term, depth: i32, vm: VarModView) -> Term
    decreases t,
{
    if refs_below(t, depth) {
        t
    } else {
        match t {
            Term::Var(i) => var_image(vm, i, depth, i.wrapping_sub(depth)),
            Term::App(f, x) => Term::App(Box::new(modify_term(*f, depth, vm)), Box::new(modify_term(*x, depth, vm))),
            Term::Lam(b) => Term::Lam(Box::new(modify_term(*b, depth.wrapping_add(1), vm))),
            _ => t,
        }
    }
}

/// `t`, found under `depth` binders, with each variable free at the outermost
/// level pointing `incr_by` binders further out.
pub open spec fn shifted(t: Term, depth: i32, incr_by: i32) -> Term
    decreases t,
{
    if refs_below(t, depth) {
        t
    } else {
        match t {
            Term::Var(i) => Term::Var(i.wrapping_add(incr_by)),
            Term::App(f, x) => Term::App(Box::new(shifted(*f, depth, incr_by)), Box::new(shifted(*x, depth, incr_by))),
            Term::Lam(b) => Term::Lam(Box::new(shifted(*b, depth.wrapping_add(1), incr_by))),
            _ => t,
        }
    }
}

/// `t` with every free variable pointing `incr_by` binders further out.
pub open spec fn shift_term(t: Term, incr_by: i32) -> Term {
    shifted(t, 0, incr_by)
}

/// A shift is the rewrite `VarModView::Shift`.
pub proof fn lemma_modify_shift(t: Term, depth: i32, incr_by: i32)
    ensures
        modify_term(t, depth, VarModView::Shift(incr_by)) == shifted(t, depth, incr_by),
    decreases t,
{
    if !refs_below(t, depth) {
        match t {
            Term::App(f, x) => {
                lemma_modify_shift(*f, depth, incr_by);
                lemma_modify_shift(*x, depth, incr_by);
            },
            Term::Lam(b) => {
                lemma_modify_shift(*b, depth.wrapping_add(1), incr_by);
            },
            _ => {},
        }
    }
}

/// Shifting `t`, found under `depth` binders, by `incr_by` keeps every
/// variable it moves free (at or past `depth`, without overflow), and the
/// binder count it keeps stays below `i32::MAX`.
pub open spec fn shift_safe(t: Term, depth: i32, incr_by: i32) -> bool
    decreases t,
{
    refs_below(t, depth) || match t {
        Term::Var(i) => depth <= i + incr_by <= i32::MAX,
        Term::App(f, x) => shift_safe(*f, depth, incr_by) && shift_safe(*x, depth, incr_by),
        Term::Lam(b) => depth < i32::MAX && shift_safe(*b, (depth + 1) as i32, incr_by),
        _ => true,
    }
}

/// A shift keeps the variables that were bound at `depth` among the free
/// variables of the result.
pub proof fn lemma_shift_keeps_bound(t: Term, depth: i32, incr_by: i32, r: i32)
    requires
        0 <= depth,
        shift_safe(t, depth, incr_by),
        upward_refs(t).contains(r),
        r < depth,
    ensures
        upward_refs(shifted(t, depth, incr_by)).contains(r),
    decreases t,
{
    if !refs_below(t, depth) {
        match t {
            Term::App(f, x) => {
                if upward_refs(*f).contains(r) {
                    lemma_shift_keeps_bound(*f, depth, incr_by, r);
                } else {
                    lemma_shift_keeps_bound(*x, depth, incr_by, r);
                }
            },
            Term::Lam(b) => {
                let x = choose|x: i32| #[trigger] upward_refs(*b).contains(x) && outer_index(x) == r;
                assert(x == r + 1);
                lemma_shift_keeps_bound(*b, (depth + 1) as i32, incr_by, x);
                let sb = shifted(*b, (depth + 1) as i32, incr_by);
                assert(upward_refs(sb).contains(x) && outer_index(x) == r);
            },
            _ => {},
        }
    }
}

/// A shift that keeps its moved variables free leaves a variable free at
/// `depth` in the result when there was one in `t`.
pub proof fn lemma_shift_keeps_free(t: Term, depth: i32, incr_by: i32, r: i32) -> (r2: i32)
    requires
        0 <= depth,
        shift_safe(t, depth, incr_by),
        upward_refs(t).contains(r),
        r >= depth,
    ensures
        upward_refs(shifted(t, depth, incr_by)).contains(r2),
        r2 >= depth,
    decreases t,
{
    assert(!refs_below(t, depth));
    match t {
        Term::Var(i) => {
            assert(r == i);
            (i + incr_by) as i32
        },
        Term::App(f, x) => {
            if upward_refs(*f).contains(r) {
                lemma_shift_keeps_free(*f, depth, incr_by, r)
            } else {
                lemma_shift_keeps_free(*x, depth, incr_by, r)
            }
        },
        Term::Lam(b) => {
            let x = choose|x: i32| #[trigger] upward_refs(*b).contains(x) && outer_index(x) == r;
            let sb = shifted(*b, (depth + 1) as i32, incr_by);
            if x == i32::MIN {
                lemma_shift_keeps_bound(*b, (depth + 1) as i32, incr_by, x);
                assert(upward_refs(sb).contains(x) && outer_index(x) == r);
                r
            } else {
                assert(x == r + 1);
                let x2 = lemma_shift_keeps_free(*b, (depth + 1) as i32, incr_by, x);
                let y2 = outer_index(x2);
                assert(y2 == x2 - 1);
                assert(upward_refs(sb).contains(x2) && outer_index(x2) == y2);
                y2
            }
        },
        _ => {
            assert(false);
            r
        },
    }
}

/// Every variable index in `t` lies between 0 and `hi`.
pub open spec fn vars_in_range(t: Term, hi: int) -> bool
    decreases t,
{
    match t {
        Term::Var(i) => 0 <= i <= hi,
        Term::App(f, x) => vars_in_range(*f, hi) && vars_in_range(*x, hi),
        Term::Lam(b) => vars_in_range(*b, hi),
        _ => true,
    }
}

/// The free variables of a term whose variable indices lie in `[0, hi]` lie
/// there too.
pub proof fn lemma_refs_in_range(t: Term, hi: int, r: i32)
    requires
        vars_in_range(t, hi),
        upward_refs(t).contains(r),
    ensures
        0 <= r <= hi,
    decreases t,
{
    match t {
        Term::App(f, x) => {
            if upward_refs(*f).contains(r) {
                lemma_refs_in_range(*f, hi, r);
            } else {
                lemma_refs_in_range(*x, hi, r);
            }
        },
        Term::Lam(b) => {
            let x = choose|x: i32| #[trigger] upward_refs(*b).contains(x) && outer_index(x) == r;
            lemma_refs_in_range(*b, hi, x);
        },
        _ => {},
    }
}

/// A shift by `a >= 0` of a term whose variable indices are at most
/// `i32::MAX - a` keeps every variable it moves free.
pub proof fn lemma_shift_safe_in_range(t: Term, depth: i32, a: i32)
    requires
        0 <= depth,
        0 <= a,
        vars_in_range(t, i32::MAX - a),
    ensures
        shift_safe(t, depth, a),
    decreases t,
{
    if !refs_below(t, depth) {
        match t {
            Term::App(f, x) => {
                lemma_shift_safe_in_range(*f, depth, a);
                lemma_shift_safe_in_range(*x, depth, a);
            },
            Term::Lam(b) => {
                let r = choose|r: i32| #[trigger] upward_refs(t).contains(r) && !(r < depth);
                let x = choose|x: i32| #[trigger] upward_refs(*b).contains(x) && outer_index(x) == r;
                lemma_refs_in_range(*b, i32::MAX - a, x);
                assert(depth < i32::MAX);
                lemma_shift_safe_in_range(*b, (depth + 1) as i32, a);
            },
            _ => {},
        }
    }
}

/// Shifting a term by `a >= 0` and then by `b` is shifting it by `a + b`
/// (wrapping), when its variable indices lie between 0 and `i32::MAX - a`.
pub proof fn law_shift_compose_in_range(t: Term, a: i32, b: i32)
    requires
        0 <= a,
        vars_in_range(t, i32::MAX - a),
    ensures
        shift_term(shift_term(t, a), b) == shift_term(t, a.wrapping_add(b)),
{
    lemma_shift_safe_in_range(t, 0, a);
    lemma_shifted_compose(t, 0, a, b);
}

/// Shifting twice, where the first shift keeps every variable it moves free,
/// is shifting once by the sum (wrapping).
pub proof fn lemma_shifted_compose(t: Term, depth: i32, a: i32, b: i32)
    requires
        0 <= depth,
        shift_safe(t, depth, a),
    ensures
        shifted(shifted(t, depth, a), depth, b) == shifted(t, depth, a.wrapping_add(b)),
    decreases t,
{
    if !refs_below(t, depth) {
        let r = choose|r: i32| #[trigger] upward_refs(t).contains(r) && !(r < depth);
        let r2 = lemma_shift_keeps_free(t, depth, a, r);
        assert(!refs_below(shifted(t, depth, a), depth));
        match t {
            Term::Var(i) => {
                assert(i.wrapping_add(a) == i + a);
                assert((i + a) as i32 == i.wrapping_add(a));
                assert(i.wrapping_add(a).wrapping_add(b) == i.wrapping_add(a.wrapping_add(b))) by (bit_vector)
                    requires
                        i + a <= i32::MAX,
                        i + a >= i32::MIN;
            },
            Term::App(f, x) => {
                lemma_shifted_compose(*f, depth, a, b);
                lemma_shifted_compose(*x, depth, a, b);
            },
            Term::Lam(bd) => {
                lemma_shifted_compose(*bd, (depth + 1) as i32, a, b);
                assert(depth.wrapping_add(1) == depth + 1);
            },
            _ => {},
        }
    }
}

/// Shifting a term by `a` and then by `b` is shifting it by `a + b`
/// (wrapping), when the first shift keeps every variable it moves free.
pub proof fn law_shift_compose(t: Term, a: i32, b: i32)
    requires
        shift_safe(t, 0, a),
    ensures
        shift_term(shift_term(t, a), b) == shift_term(t, a.wrapping_add(b)),
{
    lemma_shifted_compose(t, 0, a, b);
}

/// Shifting by zero changes nothing, at any depth.
pub proof fn lemma_shifted_zero(t: Term, depth: i32)
    ensures
        shifted(t, depth, 0) == t,
    decreases t,
{
    if !refs_below(t, depth) {
        match t {
            Term::App(f, x) => {
                lemma_shifted_zero(*f, depth);
                lemma_shifted_zero(*x, depth);
            },
            Term::Lam(b) => {
                lemma_shifted_zero(*b, depth.wrapping_add(1));
            },
            _ => {},
        }
    }
}

/// Shifting the free variables of a node by zero, under any number of
/// binders, gives back the node itself and adds no node to the graph: the
/// shifted tree is the same tree, the graph stores each tree once, and a
/// shift only adds nodes for trees inside its result.
pub proof fn law_shift_by_zero(before: ProgramGraph, after: ProgramGraph, e: Id, r: Id, depth: i32)
    requires
        before.wf(),
        after.wf(),
        extends(before, after),
        e < before.nodes().len(),
        r < after.nodes().len(),
        after.term(r as int) == shifted(before.term(e as int), depth, 0),
        grown_within(before, after, shifted(before.term(e as int), depth, 0)),
    ensures
        r == e,
        after.nodes() == before.nodes(),
{
    lemma_shifted_zero(before.term(e as int), depth);
    lemma_extends_term(before, after, e as int);
    crate::graph::lemma_term_injective(after, r as int, e as int);
    lemma_grown_within_stored(before, after, e as int);
}

/// Memo of rewritten nodes: from (node, depth) to the rewritten node, `None`
/// while the rewrite is under way.
pub type VarModCache = HashMap<u128, Option<Id>>;

pub open spec fn key_base() -> int {
    0x1_0000_0000
}

pub open spec fn key_of(id: int, depth: i32) -> int {
    id * key_base() + (depth + 0x8000_0000)
}

pub open spec fn key_id(k: u128) -> int {
    k as int / key_base()
}

pub open spec fn key_depth(k: u128) -> i32 {
    (k as int % key_base() - 0x8000_0000) as i32
}

pub proof fn lemma_key_decode(id: int, depth: i32)
    requires
        0 <= id <= usize::MAX,
    ensures
        key_of(id, depth) >= 0,
        key_id(key_of(id, depth) as u128) == id,
        key_depth(key_of(id, depth) as u128) == depth,
{
    let k = key_of(id, depth);
    let r = depth + 0x8000_0000;
    assert(0 <= r < key_base());
    vstd::arithmetic::div_mod::lemma_fundamental_div_mod_converse(k, key_base(), id, r);
    assert(k < 0x1_0000_0000_0000_0000_0000_0000);
    assert((k as u128) as int == k);
}

/// The cache key of `(id, depth)`.
pub fn cache_key(id: Id, depth: i32) -> (k: u128)
    ensures
        k as int == key_of(id as int, depth),
        key_id(k) == id,
        key_depth(k) == depth,
{
    proof {
        lemma_key_decode(id as int, depth);
    }
    let off: u128 = (depth as i64 + 0x8000_0000i64) as u128;
    (id as u128) * 0x1_0000_0000u128 + off
}

/// Every finished entry of the memo is right for `vm` in graph `g`.
pub open spec fn cache_ok(g: ProgramGraph, vm: VarModView, seen: Map<u128, Option<Id>>) -> bool {
    forall|k: u128| #[trigger] seen.contains_key(k) ==> (seen[k] matches Some(r) ==> {
        &&& r < g.nodes().len()
        &&& key_id(k) < g.nodes().len()
        &&& g.term(r as int) == modify_term(g.term(key_id(k)), key_depth(k), vm)
    })
}

/// Unfinished entries belong to nodes above `e`.
pub open spec fn pending_above(seen: Map<u128, Option<Id>>, e: int) -> bool {
    forall|k: u128| #[trigger] seen.contains_key(k) && seen[k] is None ==> key_id(k) > e
}

/// No entry is unfinished.
pub open spec fn all_finished(seen: Map<u128, Option<Id>>) -> bool {
    forall|k: u128| #[trigger] seen.contains_key(k) ==> seen[k] is Some
}

/// `b` extends `a`: the same nodes first, possibly more after.
pub open spec fn extends(a: ProgramGraph, b: ProgramGraph) -> bool {
    &&& a.nodes().len() <= b.nodes().len()
    &&& forall|i: int| 0 <= i < a.nodes().len() ==> #[trigger] b.nodes()[i] == a.nodes()[i]
}

pub proof fn lemma_extends_term(a: ProgramGraph, b: ProgramGraph, id: int)
    requires
        a.wf(),
        b.wf(),
        extends(a, b),
        0 <= id < a.nodes().len(),
    ensures
        a.term(id) == b.term(id),
{
    a.lemma_wf();
    b.lemma_wf();
    crate::graph::lemma_term_prefix(a.nodes(), b.nodes(), id);
}

pub proof fn lemma_denotes_extends(var_mod: &VarMod, vm: VarModView, a: ProgramGraph, b: ProgramGraph)
    requires
        a.wf(),
        b.wf(),
        extends(a, b),
        var_mod.denotes(vm, a),
    ensures
        var_mod.denotes(vm, b),
{
    if let VarMod::Inline { replace_with } = var_mod {
        lemma_extends_term(a, b, *replace_with as int);
    }
}

pub proof fn lemma_extends_trans(a: ProgramGraph, b: ProgramGraph, c: ProgramGraph)
    requires
        extends(a, b),
        extends(b, c),
    ensures
        extends(a, c),
{
    assert forall|i: int| 0 <= i < a.nodes().len() implies #[trigger] c.nodes()[i] == a.nodes()[i] by {
        assert(c.nodes()[i] == b.nodes()[i]);
    }
}

pub proof fn lemma_cache_ok_extends(a: ProgramGraph, b: ProgramGraph, vm: VarModView, seen: Map<u128, Option<Id>>)
    requires
        a.wf(),
        b.wf(),
        extends(a, b),
        cache_ok(a, vm, seen),
    ensures
        cache_ok(b, vm, seen),
{
    assert forall|k: u128| #[trigger] seen.contains_key(k) implies (seen[k] matches Some(r) ==> {
        &&& r < b.nodes().len()
        &&& key_id(k) < b.nodes().len()
        &&& b.term(r as int) == modify_term(b.term(key_id(k)), key_depth(k), vm)
    }) by {
        if let Some(r) = seen[k] {
            lemma_extends_term(a, b, r as int);
            lemma_extends_term(a, b, key_id(k));
        }
    }
}

/// `s` is `t` or a tree inside it, below applications and abstractions.
pub open spec fn occurs_in(s: Term, t: Term) -> bool
    decreases t,
{
    s == t || match t {
        Term::App(f, x) => occurs_in(s, *f) || occurs_in(s, *x),
        Term::Lam(b) => occurs_in(s, *b),
        _ => false,
    }
}

/// Every node that `b` has beyond `a` holds a tree occurring in `t`.
pub open spec fn grown_within(a: ProgramGraph, b: ProgramGraph, t: Term) -> bool {
    forall|i: int| a.nodes().len() <= i < b.nodes().len() ==> occurs_in(#[trigger] b.term(i), t)
}

pub proof fn lemma_occurs_trans(a: Term, b: Term, c: Term)
    requires
        occurs_in(a, b),
        occurs_in(b, c),
    ensures
        occurs_in(a, c),
    decreases c,
{
    if b != c {
        match c {
            Term::App(f, x) => {
                if occurs_in(b, *f) {
                    lemma_occurs_trans(a, b, *f);
                } else {
                    lemma_occurs_trans(a, b, *x);
                }
            },
            Term::Lam(bd) => {
                lemma_occurs_trans(a, b, *bd);
            },
            _ => {},
        }
    }
}

/// Growth in two steps, each within a tree occurring in `u`.
pub proof fn lemma_grown_within_trans(a: ProgramGraph, b: ProgramGraph, c: ProgramGraph, t1: Term, t2: Term, u: Term)
    requires
        a.wf(),
        b.wf(),
        c.wf(),
        extends(a, b),
        extends(b, c),
        grown_within(a, b, t1),
        grown_within(b, c, t2),
        occurs_in(t1, u),
        occurs_in(t2, u),
    ensures
        grown_within(a, c, u),
{
    assert forall|i: int| a.nodes().len() <= i < c.nodes().len() implies occurs_in(#[trigger] c.term(i), u) by {
        if i < b.nodes().len() {
            lemma_extends_term(b, c, i);
            lemma_occurs_trans(b.term(i), t1, u);
        } else {
            lemma_occurs_trans(c.term(i), t2, u);
        }
    }
}

/// A tree occurring in the tree of a node is the tree of some node.
pub proof fn lemma_occurs_stored(g: ProgramGraph, e: int, s: Term)
    requires
        g.wf(),
        0 <= e < g.nodes().len(),
        occurs_in(s, g.term(e)),
    ensures
        exists|j: int| 0 <= j < g.nodes().len() && #[trigger] g.term(j) == s,
    decreases e,
{
    g.lemma_wf();
    if s == g.term(e) {
        assert(g.term(e) == s);
    } else {
        match g.nodes()[e] {
            Lambda::App(f, x) => {
                assert(g.nodes()[e].children()[0] < e && g.nodes()[e].children()[1] < e);
                if occurs_in(s, g.term(f as int)) {
                    lemma_occurs_stored(g, f as int, s);
                } else {
                    lemma_occurs_stored(g, x as int, s);
                }
            },
            Lambda::Lam(b) => {
                assert(g.nodes()[e].children()[0] < e);
                lemma_occurs_stored(g, b as int, s);
            },
            _ => {},
        }
    }
}

/// A graph that grew only within the tree of one of its old nodes did not
/// grow: that tree and everything in it is stored already.
pub proof fn lemma_grown_within_stored(a: ProgramGraph, b: ProgramGraph, e: int)
    requires
        a.wf(),
        b.wf(),
        extends(a, b),
        0 <= e < a.nodes().len(),
        grown_within(a, b, a.term(e)),
    ensures
        b.nodes() == a.nodes(),
{
    if b.nodes().len() > a.nodes().len() {
        let i = a.nodes().len() as int;
        assert(occurs_in(b.term(i), a.term(e)));
        lemma_occurs_stored(a, e, b.term(i));
        let j = choose|j: int| 0 <= j < a.nodes().len() && #[trigger] a.term(j) == b.term(i);
        lemma_extends_term(a, b, j);
        crate::graph::lemma_term_injective(b, i, j);
    }
    assert(b.nodes() =~= a.nodes());
}

/// Whether every element of `s` is below `bound`.
pub fn all_below(s: &HashSet<i32>, bound: i32) -> (r: bool)
    ensures
        r == (forall|x: i32| #[trigger] s@.contains(x) ==> x < bound),
{
    broadcast use vstd::std_specs::hash::axiom_spec_hash_keys_iter;

    let ghost mut checked: Set<i32> = Set::empty();
    for x in it: s.iter()
        invariant
            it.seq().unref().to_set() == s@,
            checked == it.seq().take(it.index()).unref().to_set(),
            forall|y: i32| #[trigger] checked.contains(y) ==> y < bound,
            it.index() == it.seq().len() ==> checked == s@,
    {
        proof {
            let k = it.index();
            assert(it.seq().take(k + 1).unref() =~= it.seq().take(k).unref().push(*x));
            it.seq().take(k).unref().lemma_push_to_set_commute(*x);
            assert(it.seq().take(it.seq().len() as int) =~= it.seq());
            assert(it.seq().unref()[k] == *x);
            assert(it.seq().unref().to_set().contains(*x));
        }
        if *x >= bound {
            return false;
        }
        proof {
            checked = checked.insert(*x);
        }
    }
    assert(checked =~= s@);
    true
}

/// Adds the node for variable `$idx`.
fn add_var(egraph: &mut ProgramGraph, idx: i32) -> (id: Id)
    requires
        old(egraph).wf(),
    ensures
        final(egraph).wf(),
        extends(*old(egraph), *final(egraph)),
        id < final(egraph).nodes().len(),
        final(egraph).term(id as int) == Term::Var(idx),
        grown_within(*old(egraph), *final(egraph), Term::Var(idx)),
{
    let ghost g0 = *egraph;
    proof {
        egraph.lemma_wf();
        crate::graph::lemma_children_before_push(g0.nodes(), Lambda::Var(idx));
    }
    let id = egraph.add(Lambda::Var(idx));
    proof {
        assert(extends(g0, *egraph));
        assert forall|i: int| g0.nodes().len() <= i < egraph.nodes().len() implies occurs_in(#[trigger] egraph.term(i), Term::Var(idx)) by {
            assert(i == id);
        }
    }
    id
}

/// The replacement for free variable `$actual_idx` met under `depth` binders.
fn apply_var_mod(
    var_mod: &VarMod,
    Ghost(vm): Ghost<VarModView>,
    actual_idx: i32,
    depth: i32,
    which_upward_ref: i32,
    egraph: &mut ProgramGraph,
) -> (r: Option<Id>)
    requires
        old(egraph).wf(),
        var_mod.denotes(vm, *old(egraph)),
    ensures
        final(egraph).wf(),
        extends(*old(egraph), *final(egraph)),
        r matches Some(id) && id < final(egraph).nodes().len()
            && final(egraph).term(id as int) == var_image(vm, actual_idx, depth, which_upward_ref),
        grown_within(*old(egraph), *final(egraph), var_image(vm, actual_idx, depth, which_upward_ref)),
    decreases var_mod.rank(), 0nat, 0nat,
{
    match var_mod {
        VarMod::Shift { incr_by } => Some(add_var(egraph, actual_idx.wrapping_add(*incr_by))),
        VarMod::Inline { replace_with } => {
            if which_upward_ref == 0 {
                let mut fresh: VarModCache = HashMap::new();
                shift(*replace_with, depth, egraph, &mut fresh)
            } else {
                Some(add_var(egraph, actual_idx.wrapping_sub(1)))
            }
        },
        VarMod::Reindex { shift_table, arity } => {
            if 0 <= which_upward_ref && which_upward_ref < *arity {
                Some(add_var(egraph, actual_idx.wrapping_add(shift_table[which_upward_ref as usize])))
            } else {
                Some(add_var(egraph, actual_idx))
            }
        },
        VarMod::OverLambda { arity } => {
            if which_upward_ref == *arity {
                Some(add_var(egraph, actual_idx.wrapping_sub(*arity)))
            } else if which_upward_ref < *arity {
                Some(add_var(egraph, actual_idx.wrapping_add(1)))
            } else {
                Some(add_var(egraph, actual_idx))
            }
        },
    }
}

/// Unfinished entries belong to `e` or to nodes above it.
pub open spec fn pending_from(seen: Map<u128, Option<Id>>, e: int) -> bool {
    forall|k: u128| #[trigger] seen.contains_key(k) && seen[k] is None ==> key_id(k) >= e
}

/// What a rewrite of the children of `e` may do to the memo: every entry is
/// kept as it was, new entries are only for nodes below `e`, and every entry
/// of a node below `e` is finished.
pub open spec fn memo_frame_below(s0: Map<u128, Option<Id>>, s1: Map<u128, Option<Id>>, e: int) -> bool {
    &&& forall|k: u128| #[trigger] s0.contains_key(k) ==> s1.contains_key(k) && s1[k] == s0[k]
    &&& forall|k: u128| #[trigger] s1.contains_key(k) && key_id(k) >= e ==> s0.contains_key(k)
    &&& forall|k: u128| #[trigger] s1.contains_key(k) && key_id(k) < e ==> s1[k] is Some
}

/// The rewrite of an application node whose tree has free variables left.
fn var_mod_app(
    var_mod: &VarMod,
    Ghost(vm): Ghost<VarModView>,
    eclass: Id,
    f: Id,
    x: Id,
    depth: i32,
    egraph: &mut ProgramGraph,
    seen: &mut VarModCache,
) -> (id: Id)
    requires
        old(egraph).wf(),
        var_mod.denotes(vm, *old(egraph)),
        eclass < old(egraph).nodes().len(),
        old(egraph).nodes()[eclass as int] == Lambda::App(f, x),
        !refs_below(old(egraph).term(eclass as int), depth),
        cache_ok(*old(egraph), vm, old(seen)@),
        pending_from(old(seen)@, eclass as int),
    ensures
        final(egraph).wf(),
        extends(*old(egraph), *final(egraph)),
        id < final(egraph).nodes().len(),
        final(egraph).term(id as int) == modify_term(old(egraph).term(eclass as int), depth, vm),
        grown_within(*old(egraph), *final(egraph), modify_term(old(egraph).term(eclass as int), depth, vm)),
        cache_ok(*final(egraph), vm, final(seen)@),
        memo_frame_below(old(seen)@, final(seen)@, eclass as int),
    decreases var_mod.rank(), eclass, 0nat,
{
    let ghost g0 = *egraph;
    let ghost s1 = seen@;
    proof {
        egraph.lemma_wf();
        assert(egraph.nodes()[eclass as int].children()[0] < eclass);
        assert(egraph.nodes()[eclass as int].children()[1] < eclass);
    }
    let fnew = recursive_var_mod_helper(var_mod, Ghost(vm), f, depth, egraph, seen).unwrap();
    let ghost g1 = *egraph;
    let ghost s2 = seen@;
    proof {
        lemma_denotes_extends(var_mod, vm, g0, g1);
        assert forall|k: u128| #[trigger] s2.contains_key(k) && s2[k] is None implies key_id(k) > x by {
            if key_id(k) > f {
                assert(s1.contains_key(k));
            }
        }
    }
    let xnew = recursive_var_mod_helper(var_mod, Ghost(vm), x, depth, egraph, seen).unwrap();
    let ghost g2 = *egraph;
    let ghost s3 = seen@;
    proof {
        lemma_extends_term(g0, g1, x as int);
        lemma_extends_term(g0, g1, f as int);
        lemma_extends_term(g1, g2, fnew as int);
        lemma_extends_trans(g0, g1, g2);
        g2.lemma_wf();
        crate::graph::lemma_children_before_push(g2.nodes(), Lambda::App(fnew, xnew));
        let pushed = g2.nodes().push(Lambda::App(fnew, xnew));
        crate::graph::lemma_term_prefix(g2.nodes(), pushed, fnew as int);
        crate::graph::lemma_term_prefix(g2.nodes(), pushed, xnew as int);
        assert(node_term(g2.nodes(), Lambda::App(fnew, xnew)) == Term::App(Box::new(g2.term(fnew as int)), Box::new(g2.term(xnew as int))));
        assert(g0.term(eclass as int) == Term::App(Box::new(g0.term(f as int)), Box::new(g0.term(x as int))));
    }
    let id = egraph.add(Lambda::App(fnew, xnew));
    proof {
        assert(extends(g2, *egraph));
        let res = modify_term(g0.term(eclass as int), depth, vm);
        let mf = modify_term(g0.term(f as int), depth, vm);
        let mx = modify_term(g0.term(x as int), depth, vm);
        assert(res == Term::App(Box::new(mf), Box::new(mx)));
        assert(occurs_in(mf, mf));
        assert(occurs_in(mx, mx));
        assert(occurs_in(mf, res));
        assert(occurs_in(mx, res));
        assert(occurs_in(res, res));
        assert forall|i: int| g2.nodes().len() <= i < egraph.nodes().len() implies occurs_in(#[trigger] egraph.term(i), res) by {
            assert(i == id);
        }
        lemma_grown_within_trans(g0, g1, g2, mf, mx, res);
        lemma_grown_within_trans(g0, g2, *egraph, res, res, res);
        lemma_extends_trans(g0, g2, *egraph);
        lemma_cache_ok_extends(g2, *egraph, vm, seen@);
        assert forall|k: u128| #[trigger] s3.contains_key(k) && key_id(k) < eclass implies s3[k] is Some by {
            if key_id(k) > x && s2.contains_key(k) && key_id(k) > f {
                assert(s1.contains_key(k));
            }
        }
    }
    id
}

/// The rewrite of an abstraction node whose tree has free variables left.
fn var_mod_lam(
    var_mod: &VarMod,
    Ghost(vm): Ghost<VarModView>,
    eclass: Id,
    b: Id,
    depth: i32,
    egraph: &mut ProgramGraph,
    seen: &mut VarModCache,
) -> (id: Id)
    requires
        old(egraph).wf(),
        var_mod.denotes(vm, *old(egraph)),
        eclass < old(egraph).nodes().len(),
        old(egraph).nodes()[eclass as int] == Lambda::Lam(b),
        !refs_below(old(egraph).term(eclass as int), depth),
        cache_ok(*old(egraph), vm, old(seen)@),
        pending_from(old(seen)@, eclass as int),
    ensures
        final(egraph).wf(),
        extends(*old(egraph), *final(egraph)),
        id < final(egraph).nodes().len(),
        final(egraph).term(id as int) == modify_term(old(egraph).term(eclass as int), depth, vm),
        grown_within(*old(egraph), *final(egraph), modify_term(old(egraph).term(eclass as int), depth, vm)),
        cache_ok(*final(egraph), vm, final(seen)@),
        memo_frame_below(old(seen)@, final(seen)@, eclass as int),
    decreases var_mod.rank(), eclass, 0nat,
{
    let ghost g0 = *egraph;
    proof {
        egraph.lemma_wf();
        assert(egraph.nodes()[eclass as int].children()[0] < eclass);
    }
    let bnew = recursive_var_mod_helper(var_mod, Ghost(vm), b, depth.wrapping_add(1), egraph, seen).unwrap();
    let ghost g1 = *egraph;
    proof {
        lemma_extends_term(g0, g1, b as int);
        g1.lemma_wf();
        crate::graph::lemma_children_before_push(g1.nodes(), Lambda::Lam(bnew));
        let pushed = g1.nodes().push(Lambda::Lam(bnew));
        crate::graph::lemma_term_prefix(g1.nodes(), pushed, bnew as int);
        assert(node_term(g1.nodes(), Lambda::Lam(bnew)) == Term::Lam(Box::new(g1.term(bnew as int))));
        assert(g0.term(eclass as int) == Term::Lam(Box::new(g0.term(b as int))));
    }
    let id = egraph.add(Lambda::Lam(bnew));
    proof {
        assert(extends(g1, *egraph));
        let res = modify_term(g0.term(eclass as int), depth, vm);
        let mb = modify_term(g0.term(b as int), depth.wrapping_add(1), vm);
        assert(res == Term::Lam(Box::new(mb)));
        assert(occurs_in(mb, mb));
        assert(occurs_in(mb, res));
        assert(occurs_in(res, res));
        assert forall|i: int| g1.nodes().len() <= i < egraph.nodes().len() implies occurs_in(#[trigger] egraph.term(i), res) by {
            assert(i == id);
        }
        lemma_grown_within_trans(g0, g1, *egraph, mb, res, res);
        lemma_extends_trans(g0, g1, *egraph);
        lemma_cache_ok_extends(g1, *egraph, vm, seen@);
    }
    id
}

/// The rewrite of a node whose tree has free variables left, by its kind.
fn var_mod_node(
    var_mod: &VarMod,
    Ghost(vm): Ghost<VarModView>,
    eclass: Id,
    depth: i32,
    egraph: &mut ProgramGraph,
    seen: &mut VarModCache,
) -> (id: Id)
    requires
        old(egraph).wf(),
        var_mod.denotes(vm, *old(egraph)),
        eclass < old(egraph).nodes().len(),
        !refs_below(old(egraph).term(eclass as int), depth),
        cache_ok(*old(egraph), vm, old(seen)@),
        pending_from(old(seen)@, eclass as int),
    ensures
        final(egraph).wf(),
        extends(*old(egraph), *final(egraph)),
        id < final(egraph).nodes().len(),
        final(egraph).term(id as int) == modify_term(old(egraph).term(eclass as int), depth, vm),
        grown_within(*old(egraph), *final(egraph), modify_term(old(egraph).term(eclass as int), depth, vm)),
        cache_ok(*final(egraph), vm, final(seen)@),
        memo_frame_below(old(seen)@, final(seen)@, eclass as int),
    decreases var_mod.rank(), eclass, 1nat,
{
    let ghost g0 = *egraph;
    let ghost s0 = seen@;
    let ghost t = egraph.term(eclass as int);
    proof {
        egraph.lemma_wf();
    }
    match egraph.node(eclass) {
        Lambda::Var(i) => {
            let i = *i;
            proof {
                assert(t == Term::Var(i));
                assert(upward_refs(t).contains(i));
            }
            let r = apply_var_mod(var_mod, Ghost(vm), i, depth, i.wrapping_sub(depth), egraph);
            proof {
                lemma_cache_ok_extends(g0, *egraph, vm, s0);
            }
            r.unwrap()
        },
        Lambda::App(f, x) => {
            let f = *f;
            let x = *x;
            var_mod_app(var_mod, Ghost(vm), eclass, f, x, depth, egraph, seen)
        },
        Lambda::Lam(b) => {
            let b = *b;
            var_mod_lam(var_mod, Ghost(vm), eclass, b, depth, egraph, seen)
        },
        Lambda::Prim(p) => {
            proof {
                assert(t == Term::Prim(*p));
                assert(upward_refs(t) =~= Set::empty());
            }
            eclass
        },
        Lambda::Programs(_) => {
            proof {
                assert(t is Programs);
                assert(upward_refs(t) =~= Set::empty());
            }
            eclass
        },
    }
}

/// Rewrites the free variables of node `eclass`, found under `depth` binders,
/// memoising in `seen`.
fn recursive_var_mod_helper(
    var_mod: &VarMod,
    Ghost(vm): Ghost<VarModView>,
    eclass: Id,
    depth: i32,
    egraph: &mut ProgramGraph,
    seen: &mut VarModCache,
) -> (r: Option<Id>)
    requires
        old(egraph).wf(),
        var_mod.denotes(vm, *old(egraph)),
        eclass < old(egraph).nodes().len(),
        cache_ok(*old(egraph), vm, old(seen)@),
        pending_above(old(seen)@, eclass as int),
    ensures
        final(egraph).wf(),
        extends(*old(egraph), *final(egraph)),
        r matches Some(id) && id < final(egraph).nodes().len()
            && final(egraph).term(id as int) == modify_term(old(egraph).term(eclass as int), depth, vm),
        grown_within(*old(egraph), *final(egraph), modify_term(old(egraph).term(eclass as int), depth, vm)),
        final(egraph).term(r->0 as int) == old(egraph).term(eclass as int) ==> final(egraph).nodes() == old(egraph).nodes(),
        cache_ok(*final(egraph), vm, final(seen)@),
        forall|k: u128| #[trigger] old(seen)@.contains_key(k) ==> final(seen)@.contains_key(k) && final(seen)@[k] == old(seen)@[k],
        forall|k: u128| #[trigger] final(seen)@.contains_key(k) && key_id(k) > eclass ==> old(seen)@.contains_key(k),
        forall|k: u128| #[trigger] final(seen)@.contains_key(k) && key_id(k) <= eclass ==> final(seen)@[k] is Some,
        final(seen)@.contains_key(key_of(eclass as int, depth) as u128),
        final(seen)@[key_of(eclass as int, depth) as u128] == r,
        old(seen)@.contains_key(key_of(eclass as int, depth) as u128) ==> *final(egraph) == *old(egraph)
            && final(seen)@ == old(seen)@,
        !old(seen)@.contains_key(key_of(eclass as int, depth) as u128) && refs_below(old(egraph).term(eclass as int), depth)
            ==> r == Some(eclass) && *final(egraph) == *old(egraph)
            && final(seen)@ == old(seen)@.insert(key_of(eclass as int, depth) as u128, Some(eclass)),
    decreases var_mod.rank(), eclass, 2nat,
{
    let ghost g0 = *egraph;
    let ghost s0 = seen@;
    let eclass = egraph.find(eclass);
    let key = cache_key(eclass, depth);

    match seen.get(&key) {
        Some(found) => {
            let found = *found;
            proof {
                assert(s0.contains_key(key));
                assert(found is Some);
            }
            return found;
        },
        None => {},
    }

    if all_below(egraph.upward_refs(eclass), depth) {
        seen.insert(key, Some(eclass));
        proof {
            assert(extends(g0, *egraph));
        }
        return Some(eclass);
    }

    seen.insert(key, None);
    let ghost s1 = seen@;
    let new_eclass = var_mod_node(var_mod, Ghost(vm), eclass, depth, egraph, seen);
    let new_eclass = egraph.find(new_eclass);
    let ghost s3 = seen@;
    seen.insert(key, Some(new_eclass));
    proof {
        lemma_extends_term(g0, *egraph, eclass as int);
        assert forall|k: u128| #[trigger] seen@.contains_key(k) && key_id(k) <= eclass implies seen@[k] is Some by {
            if k != key && key_id(k) >= eclass {
                assert(s1.contains_key(k));
                assert(s0.contains_key(k));
            }
        }
        if egraph.term(new_eclass as int) == g0.term(eclass as int) {
            lemma_grown_within_stored(g0, *egraph, eclass as int);
        }
        assert forall|k: u128| #[trigger] s0.contains_key(k)
            implies seen@.contains_key(k) && seen@[k] == s0[k] by {
            assert(k != key);
            assert(s1.contains_key(k));
        }
    }
    Some(new_eclass)
}

/// Rewrites the free variables of node `eclass` by `var_mod`, memoising in
/// `seen`.
pub fn recursive_var_mod(var_mod: &VarMod, eclass: Id, egraph: &mut ProgramGraph, seen: &mut VarModCache) -> (r: Option<Id>)
    requires
        old(egraph).wf(),
        var_mod.wf_in(*old(egraph)),
        eclass < old(egraph).nodes().len(),
        cache_ok(*old(egraph), var_mod.view_in(*old(egraph)), old(seen)@),
        all_finished(old(seen)@),
    ensures
        final(egraph).wf(),
        extends(*old(egraph), *final(egraph)),
        r matches Some(id) && id < final(egraph).nodes().len()
            && final(egraph).term(id as int) == modify_term(old(egraph).term(eclass as int), 0, var_mod.view_in(*old(egraph))),
        grown_within(*old(egraph), *final(egraph), modify_term(old(egraph).term(eclass as int), 0, var_mod.view_in(*old(egraph)))),
        final(egraph).term(r->0 as int) == old(egraph).term(eclass as int) ==> final(egraph).nodes() == old(egraph).nodes(),
        cache_ok(*final(egraph), var_mod.view_in(*old(egraph)), final(seen)@),
        all_finished(final(seen)@),
    decreases var_mod.rank(), eclass, 3nat,
{
    let ghost vm = var_mod.view_in(*egraph);
    let ghost s0 = seen@;
    let r = recursive_var_mod_helper(var_mod, Ghost(vm), eclass, 0, egraph, seen);
    proof {
        assert forall|k: u128| #[trigger] seen@.contains_key(k) implies seen@[k] is Some by {
            if key_id(k) > eclass {
                assert(s0.contains_key(k));
            }
        }
    }
    r
}

/// Makes every free variable of node `e` point `incr_by` binders further out.
pub fn shift(e: Id, incr_by: i32, egraph: &mut ProgramGraph, seen: &mut VarModCache) -> (r: Option<Id>)
    requires
        old(egraph).wf(),
        e < old(egraph).nodes().len(),
        cache_ok(*old(egraph), VarModView::Shift(incr_by), old(seen)@),
        all_finished(old(seen)@),
    ensures
        final(egraph).wf(),
        extends(*old(egraph), *final(egraph)),
        r matches Some(id) && id < final(egraph).nodes().len()
            && final(egraph).term(id as int) == shift_term(old(egraph).term(e as int), incr_by),
        grown_within(*old(egraph), *final(egraph), shift_term(old(egraph).term(e as int), incr_by)),
        final(egraph).term(r->0 as int) == old(egraph).term(e as int) ==> final(egraph).nodes() == old(egraph).nodes(),
        cache_ok(*final(egraph), VarModView::Shift(incr_by), final(seen)@),
        all_finished(final(seen)@),
    decreases 0nat, e, 4nat,
{
    proof {
        lemma_modify_shift(egraph.term(e as int), 0, incr_by);
    }
    recursive_var_mod(&VarMod::Shift { incr_by }, e, egraph, seen)
}

/// Substitutes node `replace_with` for the variable bound just above node
/// `e`, as when the binder is removed: the other free variables point one
/// binder closer.
pub fn inline(e: Id, replace_with: Id, egraph: &mut ProgramGraph, seen: &mut VarModCache) -> (r: Option<Id>)
    requires
        old(egraph).wf(),
        e < old(egraph).nodes().len(),
        replace_with < old(egraph).nodes().len(),
        cache_ok(*old(egraph), VarModView::Inline(old(egraph).term(replace_with as int)), old(seen)@),
        all_finished(old(seen)@),
    ensures
        final(egraph).wf(),
        extends(*old(egraph), *final(egraph)),
        r matches Some(id) && id < final(egraph).nodes().len()
            && final(egraph).term(id as int) == modify_term(
                old(egraph).term(e as int),
                0,
                VarModView::Inline(old(egraph).term(replace_with as int)),
            ),
        grown_within(*old(egraph), *final(egraph), modify_term(
            old(egraph).term(e as int),
            0,
            VarModView::Inline(old(egraph).term(replace_with as int)),
        )),
        final(egraph).term(r->0 as int) == old(egraph).term(e as int) ==> final(egraph).nodes() == old(egraph).nodes(),
        cache_ok(*final(egraph), VarModView::Inline(old(egraph).term(replace_with as int)), final(seen)@),
        all_finished(final(seen)@),
{
    recursive_var_mod(&VarMod::Inline { replace_with }, e, egraph, seen)
}

} // verus!
