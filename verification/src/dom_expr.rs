//! Evaluation of lambda expressions over a user-supplied domain of values,
//! with every (node, environment) result remembered.

use vstd::prelude::*;
use vstd::std_specs::cmp::PartialEqSpec;
use vstd::laws_eq::obeys_concrete_eq;
use crate::expr::Expr;
use crate::lambda::{symbols_equal, Id, Lambda};

verus! {

/// A curried domain function: the primitive `name` of the given arity, with
/// the arguments received so far.
#[derive(Debug, PartialEq, Eq, Hash)]
pub struct CurriedFn<D> {
    name: egg::Symbol,
    arity: usize,
    partial_args: Vec<Val<D>>,
}

impl<D> CurriedFn<D> {
    /// The primitive.
    pub closed spec fn prim(&self) -> egg::Symbol {
        self.name
    }

    /// How many arguments the primitive takes.
    pub closed spec fn arity(&self) -> usize {
        self.arity
    }

    /// The arguments received so far.
    pub closed spec fn args(&self) -> Seq<Val<D>> {
        self.partial_args@
    }
}

/// A runtime value: a domain value, a partially applied primitive, or a
/// closure (body node and captured environment).
#[derive(Debug, PartialEq, Eq, Hash)]
pub enum Val<D> {
    Dom(D),
    PrimFun(CurriedFn<D>),
    LamClosure(Id, Vec<Val<D>>),
}

/// An expression together with every result of evaluating one of its nodes
/// in an environment: entry `((node, env), result)`.
#[derive(Debug)]
pub struct DomExpr<D> {
    expr: Expr,
    evals: Vec<((Id, Vec<Val<D>>), Val<D>)>,
}

/// Why an evaluation stopped without a value.
#[derive(Clone, Copy, Debug, PartialEq, Eq, Structural)]
pub enum EvalError {
    /// A variable refers past the end of its environment.
    UnboundVar,
    /// A primitive that the domain does not define.
    UnknownPrim,
    /// A domain value was applied as a function.
    NotAFunction,
    /// A corpus node was evaluated.
    Programs,
    /// A node index outside the expression.
    NoSuchNode,
    /// The evaluation needed more nested steps than it was given.
    OutOfFuel,
}

/// The semantics of a domain's primitives, supplied by the domain's author,
/// who also states what they are: the value of each primitive
/// (`prim_value`) and what each function primitive gives on its arguments
/// (`prim_call`).
pub trait Domain: Sized + Clone + PartialEq + Eq + core::hash::Hash + core::fmt::Debug {
    /// The runtime value of primitive `p`, as the domain defines it; `None`
    /// for a symbol that is no primitive of the domain.
    spec fn prim_value(p: egg::Symbol) -> Option<Val<Self>>;

    /// `r` is a result the domain's function primitive `p` gives on the
    /// argument list `args`.
    spec fn prim_call(p: egg::Symbol, args: &[Val<Self>], r: Val<Self>) -> bool;

    /// The runtime value of primitive `p`: a `PrimFun` for a function
    /// primitive; `None` for a symbol that is no primitive of the domain.
    fn val_of_prim(p: egg::Symbol) -> (r: Option<Val<Self>>)
        ensures
            r == Self::prim_value(p),
    ;

    /// Calls the function primitive `p` on its full list of arguments. The
    /// handle lets the primitive apply function values it received
    /// (`DomExpr::apply`), with at most `fuel` nested evaluation steps, and
    /// serves nothing else: like those applications, the call keeps the
    /// expression and every remembered result, and adds no second entry for
    /// a key.
    fn call_prim(p: egg::Symbol, args: &[Val<Self>], handle: &mut DomExpr<Self>, fuel: usize) -> (r: Val<Self>)
        ensures
            Self::prim_call(p, args, r),
            memo_kept(*old(handle), *final(handle)),
            exact_domain::<Self>() && keys_distinct(old(handle).memo()) ==> keys_distinct(final(handle).memo()),
    ;
}

/// Two values are the same up to cloning of the domain values in them.
pub open spec fn val_cloned<D: Domain>(a: Val<D>, b: Val<D>) -> bool
    decreases a,
{
    match (a, b) {
        (Val::Dom(x), Val::Dom(y)) => cloned::<D>(x, y),
        (Val::PrimFun(f), Val::PrimFun(g)) => {
            &&& f.prim() == g.prim()
            &&& f.arity() == g.arity()
            &&& f.args().len() == g.args().len()
            &&& forall|i: int| 0 <= i < f.args().len() ==> val_cloned(f.args()[i], g.args()[i])
        },
        (Val::LamClosure(b1, e1), Val::LamClosure(b2, e2)) => {
            &&& b1 == b2
            &&& e1@.len() == e2@.len()
            &&& forall|i: int| 0 <= i < e1@.len() ==> val_cloned(e1@[i], e2@[i])
        },
        _ => false,
    }
}

/// Copies of the values of `v`.
pub fn dup_vals<D: Domain>(v: &[Val<D>]) -> (r: Vec<Val<D>>)
    ensures
        r@.len() == v@.len(),
        forall|i: int| 0 <= i < v@.len() ==> val_cloned(v@[i], #[trigger] r@[i]),
    decreases v@, 0int,
{
    let mut r: Vec<Val<D>> = Vec::new();
    let mut i: usize = 0;
    while i < v.len()
        invariant
            i <= v@.len(),
            r@.len() == i,
            forall|j: int| 0 <= j < i ==> val_cloned(v@[j], #[trigger] r@[j]),
        decreases v@.len() - i,
    {
        proof {
            assert(decreases_to!(v@ => v@[i as int]));
        }
        r.push(v[i].dup());
        i = i + 1;
    }
    r
}

impl<D: Domain> Val<D> {
    /// A copy of this value; domain values in it are cloned.
    pub fn dup(&self) -> (r: Val<D>)
        ensures
            val_cloned(*self, r),
        decreases *self, 1int,
    {
        match self {
            Val::Dom(d) => Val::Dom(d.clone()),
            Val::PrimFun(f) => {
                proof {
                    assert(decreases_to!(*self => f.partial_args@));
                }
                Val::PrimFun(CurriedFn { name: f.name, arity: f.arity, partial_args: dup_vals(f.partial_args.as_slice()) })
            },
            Val::LamClosure(b, env) => {
                proof {
                    assert(decreases_to!(*self => env@));
                }
                Val::LamClosure(*b, dup_vals(env.as_slice()))
            },
        }
    }
}

impl<D: Domain> Clone for Val<D> {
    fn clone(&self) -> (r: Self)
        ensures
            val_cloned(*self, r),
    {
        self.dup()
    }
}

impl<D: Domain> Clone for CurriedFn<D> {
    fn clone(&self) -> (r: Self)
        ensures
            r.prim() == self.prim(),
            r.arity() == self.arity(),
            r.args().len() == self.args().len(),
            forall|i: int| 0 <= i < self.args().len() ==> val_cloned(self.args()[i], #[trigger] r.args()[i]),
    {
        CurriedFn { name: self.name, arity: self.arity, partial_args: dup_vals(self.partial_args.as_slice()) }
    }
}

/// Two values are equal: the same domain values, primitives, arities, body
/// nodes, and equal values in them.
pub open spec fn val_eq<D>(a: Val<D>, b: Val<D>) -> bool
    decreases a,
{
    match (a, b) {
        (Val::Dom(x), Val::Dom(y)) => x == y,
        (Val::PrimFun(f), Val::PrimFun(g)) => {
            &&& f.prim() == g.prim()
            &&& f.arity() == g.arity()
            &&& f.args().len() == g.args().len()
            &&& forall|i: int| 0 <= i < f.args().len() ==> val_eq(f.args()[i], g.args()[i])
        },
        (Val::LamClosure(b1, e1), Val::LamClosure(b2, e2)) => {
            &&& b1 == b2
            &&& e1@.len() == e2@.len()
            &&& forall|i: int| 0 <= i < e1@.len() ==> val_eq(e1@[i], e2@[i])
        },
        _ => false,
    }
}

/// Two lists of values are equal element by element.
pub open spec fn vals_eq<D>(a: Seq<Val<D>>, b: Seq<Val<D>>) -> bool {
    &&& a.len() == b.len()
    &&& forall|i: int| 0 <= i < a.len() ==> val_eq(#[trigger] a[i], b[i])
}

/// Two lists of values are copies of each other element by element.
pub open spec fn vals_cloned<D: Domain>(a: Seq<Val<D>>, b: Seq<Val<D>>) -> bool {
    &&& a.len() == b.len()
    &&& forall|i: int| 0 <= i < a.len() ==> val_cloned(a[i], #[trigger] b[i])
}

/// Two values have the same form: the same primitives, arities, body nodes
/// and lengths throughout, whatever the domain values in them.
pub open spec fn val_shape<D: Domain>(a: Val<D>, b: Val<D>) -> bool
    decreases a,
{
    match (a, b) {
        (Val::Dom(_), Val::Dom(_)) => true,
        (Val::PrimFun(f), Val::PrimFun(g)) => {
            &&& f.prim() == g.prim()
            &&& f.arity() == g.arity()
            &&& f.args().len() == g.args().len()
            &&& forall|i: int| 0 <= i < f.args().len() ==> val_shape(f.args()[i], g.args()[i])
        },
        (Val::LamClosure(b1, e1), Val::LamClosure(b2, e2)) => {
            &&& b1 == b2
            &&& e1@.len() == e2@.len()
            &&& forall|i: int| 0 <= i < e1@.len() ==> val_shape(e1@[i], e2@[i])
        },
        _ => false,
    }
}

/// Two lists of values have the same form element by element.
pub open spec fn vals_shape<D: Domain>(a: Seq<Val<D>>, b: Seq<Val<D>>) -> bool {
    &&& a.len() == b.len()
    &&& forall|i: int| 0 <= i < a.len() ==> val_shape(#[trigger] a[i], b[i])
}

/// Whether two values are equal; exact when the domain's `==` is equality.
pub fn vals_equal<D: Domain>(a: &Val<D>, b: &Val<D>) -> (r: bool)
    ensures
        obeys_concrete_eq::<D>() ==> r == val_eq(*a, *b),
        r ==> val_shape(*a, *b),
    decreases *a, 1int,
{
    match (a, b) {
        (Val::Dom(x), Val::Dom(y)) => {
            let r = *x == *y;
            proof {
                reveal(obeys_concrete_eq);
            }
            r
        },
        (Val::PrimFun(f), Val::PrimFun(g)) => {
            proof {
                assert(decreases_to!(*a => f.partial_args@));
            }
            symbols_equal(&f.name, &g.name) && f.arity == g.arity
                && slices_equal(f.partial_args.as_slice(), g.partial_args.as_slice())
        },
        (Val::LamClosure(b1, e1), Val::LamClosure(b2, e2)) => {
            proof {
                assert(decreases_to!(*a => e1@));
            }
            *b1 == *b2 && slices_equal(e1.as_slice(), e2.as_slice())
        },
        _ => false,
    }
}

/// Whether two lists of values are equal; exact when the domain's `==` is
/// equality.
pub fn slices_equal<D: Domain>(a: &[Val<D>], b: &[Val<D>]) -> (r: bool)
    ensures
        obeys_concrete_eq::<D>() ==> r == vals_eq(a@, b@),
        r ==> vals_shape(a@, b@),
    decreases a@, 0int,
{
    if a.len() != b.len() {
        return false;
    }
    let mut i: usize = 0;
    while i < a.len()
        invariant
            i <= a@.len(),
            a@.len() == b@.len(),
            obeys_concrete_eq::<D>() ==> forall|j: int| 0 <= j < i ==> val_eq(#[trigger] a@[j], b@[j]),
            forall|j: int| 0 <= j < i ==> val_shape(#[trigger] a@[j], b@[j]),
        decreases a@.len() - i,
    {
        proof {
            assert(decreases_to!(a@ => a@[i as int]));
        }
        if !vals_equal(&a[i], &b[i]) {
            return false;
        }
        i = i + 1;
    }
    true
}

impl<D: Domain> CurriedFn<D> {
    /// The primitive `name` of the given arity, with no argument yet.
    pub fn new(name: egg::Symbol, arity: usize) -> (r: Self)
        ensures
            r.prim() == name,
            r.arity() == arity,
            r.args() == Seq::<Val<D>>::empty(),
    {
        CurriedFn { name, arity, partial_args: Vec::new() }
    }

    /// Receives one more argument: the full argument list once all `arity`
    /// arguments are in, else the function waiting for the rest.
    pub fn feed(&self, arg: &Val<D>) -> (r: Result<Vec<Val<D>>, CurriedFn<D>>)
        ensures
            match r {
                Ok(args) => self.args().len() + 1 == self.arity() && vals_cloned(self.args().push(*arg), args@),
                Err(g) => self.args().len() + 1 != self.arity() && g.prim() == self.prim()
                    && g.arity() == self.arity() && vals_cloned(self.args().push(*arg), g.args()),
            },
    {
        let mut args = dup_vals(self.partial_args.as_slice());
        args.push(arg.dup());
        proof {
            assert forall|i: int| 0 <= i < self.args().len() + 1 implies val_cloned(
                self.args().push(*arg)[i], #[trigger] args@[i]) by {}
        }
        if args.len() == self.arity {
            Ok(args)
        } else {
            Err(CurriedFn { name: self.name, arity: self.arity, partial_args: args })
        }
    }

    /// Feeds one more argument into the function: a new curried function while
    /// arguments are still missing, else the primitive's result on all of
    /// them.
    pub fn apply(&self, arg: &Val<D>, handle: &mut DomExpr<D>, fuel: usize) -> (r: Val<D>)
        ensures
            self.args().len() + 1 != self.arity() ==> *final(handle) == *old(handle) && (r matches Val::PrimFun(g)
                && g.prim() == self.prim() && g.arity() == self.arity() && vals_cloned(self.args().push(*arg), g.args())),
            self.args().len() + 1 == self.arity() ==> exists|args: &[Val<D>]|
                vals_cloned(self.args().push(*arg), args@) && #[trigger] D::prim_call(self.prim(), args, r),
            memo_kept(*old(handle), *final(handle)),
            distinct_kept(*old(handle), *final(handle)),
    {
        match self.feed(arg) {
            Ok(args) => {
                let sl = args.as_slice();
                let r = D::call_prim(self.name, sl, handle, fuel);
                proof {
                    assert(sl@ == args@);
                    assert(D::prim_call(self.prim(), sl, r));
                }
                r
            },
            Err(g) => Val::PrimFun(g),
        }
    }
}

impl<D: Domain> Val<D> {
    /// The domain value inside.
    pub fn unwrap_dom(&self) -> (r: D)
        requires
            self is Dom,
        ensures
            cloned::<D>(self->Dom_0, r),
    {
        match self {
            Val::Dom(d) => d.clone(),
            _ => vstd::pervasive::unreached(),
        }
    }
}

impl<D: Domain> From<D> for Val<D> {
    fn from(d: D) -> (r: Self) {
        Val::Dom(d)
    }
}

impl<D: Domain> vstd::std_specs::convert::FromSpecImpl<D> for Val<D> {
    open spec fn obeys_from_spec() -> bool {
        true
    }

    open spec fn from_spec(d: D) -> Self {
        Val::Dom(d)
    }
}

impl<D: Domain> Clone for DomExpr<D> {
    fn clone(&self) -> (r: Self) {
        DomExpr { expr: self.expr.clone(), evals: self.evals.clone() }
    }
}

impl<D: Domain> From<Expr> for DomExpr<D> {
    fn from(expr: Expr) -> (r: Self)
        ensures
            r.expression() == expr,
            r.memo() == Seq::<EvalEntry<D>>::empty(),
    {
        DomExpr::new(expr)
    }
}

/// `from` is specified by its own `ensures`: the memo of the new value is an
/// empty `Vec`, which a spec function cannot build, so `from_spec` only names
/// a value with the same view.
impl<D: Domain> vstd::std_specs::convert::FromSpecImpl<Expr> for DomExpr<D> {
    open spec fn obeys_from_spec() -> bool {
        false
    }

    open spec fn from_spec(expr: Expr) -> Self {
        choose|d: DomExpr<D>| d.expression() == expr && d.memo() == Seq::<EvalEntry<D>>::empty()
    }
}

/// Equality of values is reflexive.
pub proof fn lemma_val_eq_refl<D: Domain>(a: Val<D>)
    ensures
        val_eq(a, a),
    decreases a,
{
    match a {
        Val::PrimFun(f) => {
            assert forall|i: int| 0 <= i < f.args().len() implies val_eq(f.args()[i], f.args()[i]) by {
                assert(decreases_to!(a => f.partial_args@[i]));
                lemma_val_eq_refl(f.args()[i]);
            }
        },
        Val::LamClosure(b, e) => {
            assert forall|i: int| 0 <= i < e@.len() implies val_eq(e@[i], e@[i]) by {
                assert(decreases_to!(a => e@[i]));
                lemma_val_eq_refl(e@[i]);
            }
        },
        Val::Dom(_) => {},
    }
}

/// The domain's `==` is equality and its `clone` gives an equal value.
pub open spec fn exact_domain<D: PartialEq + Clone>() -> bool {
    &&& obeys_concrete_eq::<D>()
    &&& forall|a: D, b: D| #[trigger] cloned::<D>(a, b) ==> a == b
}

/// In an exact domain a copy of a value is equal to it.
pub proof fn lemma_cloned_eq<D: Domain>(a: Val<D>, b: Val<D>)
    requires
        exact_domain::<D>(),
        val_cloned(a, b),
    ensures
        val_eq(a, b),
        val_eq(b, a),
    decreases a,
{
    match (a, b) {
        (Val::PrimFun(f), Val::PrimFun(g)) => {
            assert forall|i: int| 0 <= i < f.args().len() implies val_eq(f.args()[i], g.args()[i]) && val_eq(g.args()[i], f.args()[i]) by {
                assert(decreases_to!(a => f.partial_args@[i]));
                lemma_cloned_eq(f.args()[i], g.args()[i]);
            }
        },
        (Val::LamClosure(_, e1), Val::LamClosure(_, e2)) => {
            assert forall|i: int| 0 <= i < e1@.len() implies val_eq(e1@[i], e2@[i]) && val_eq(e2@[i], e1@[i]) by {
                assert(decreases_to!(a => e1@[i]));
                lemma_cloned_eq(e1@[i], e2@[i]);
            }
        },
        _ => {},
    }
}

/// Equality of values is transitive.
pub proof fn lemma_val_eq_trans<D: Domain>(a: Val<D>, b: Val<D>, c: Val<D>)
    requires
        val_eq(a, b),
        val_eq(b, c),
    ensures
        val_eq(a, c),
    decreases a,
{
    match (a, b, c) {
        (Val::PrimFun(f), Val::PrimFun(g), Val::PrimFun(h)) => {
            assert forall|i: int| 0 <= i < f.args().len() implies val_eq(f.args()[i], h.args()[i]) by {
                assert(decreases_to!(a => f.partial_args@[i]));
                lemma_val_eq_trans(f.args()[i], g.args()[i], h.args()[i]);
            }
        },
        (Val::LamClosure(_, e1), Val::LamClosure(_, e2), Val::LamClosure(_, e3)) => {
            assert forall|i: int| 0 <= i < e1@.len() implies val_eq(e1@[i], e3@[i]) by {
                assert(decreases_to!(a => e1@[i]));
                lemma_val_eq_trans(e1@[i], e2@[i], e3@[i]);
            }
        },
        _ => {},
    }
}

/// Equality of values is symmetric.
pub proof fn lemma_val_eq_sym<D>(a: Val<D>, b: Val<D>)
    requires
        val_eq(a, b),
    ensures
        val_eq(b, a),
    decreases a,
{
    match (a, b) {
        (Val::PrimFun(f), Val::PrimFun(g)) => {
            assert forall|i: int| 0 <= i < g.args().len() implies val_eq(g.args()[i], f.args()[i]) by {
                assert(decreases_to!(a => f.partial_args@[i]));
                lemma_val_eq_sym(f.args()[i], g.args()[i]);
            }
        },
        (Val::LamClosure(_, e1), Val::LamClosure(_, e2)) => {
            assert forall|i: int| 0 <= i < e2@.len() implies val_eq(e2@[i], e1@[i]) by {
                assert(decreases_to!(a => e1@[i]));
                lemma_val_eq_sym(e1@[i], e2@[i]);
            }
        },
        _ => {},
    }
}

/// A memo entry: `((node, env), result)`.
pub type EvalEntry<D> = ((Id, Vec<Val<D>>), Val<D>);

/// Entry `e` is for node `node` in an environment equal to `env`.
pub open spec fn key_matches<D>(e: EvalEntry<D>, node: Id, env: Seq<Val<D>>) -> bool {
    e.0.0 == node && vals_eq(e.0.1@, env)
}

/// No two entries of `evals` are for the same node in equal environments.
pub open spec fn keys_distinct<D>(evals: Seq<EvalEntry<D>>) -> bool {
    forall|i: int, j: int| #![trigger evals[i], evals[j]]
        0 <= i < j < evals.len() ==> !key_matches(evals[j], evals[i].0.0, evals[i].0.1@)
}

/// Entry `i` is the first entry of `evals` for `(node, env)`.
pub open spec fn first_match<D>(evals: Seq<EvalEntry<D>>, node: Id, env: Seq<Val<D>>, i: int) -> bool {
    &&& 0 <= i < evals.len()
    &&& key_matches(evals[i], node, env)
    &&& forall|j: int| 0 <= j < i ==> !key_matches(#[trigger] evals[j], node, env)
}

/// When some entry is for `(node, env)`, a first one is.
pub proof fn lemma_first_match_exists<D: Domain>(evals: Seq<EvalEntry<D>>, node: Id, env: Seq<Val<D>>, j: int)
    requires
        0 <= j < evals.len(),
        key_matches(evals[j], node, env),
    ensures
        exists|i: int| first_match(evals, node, env, i),
    decreases j,
{
    if exists|k: int| 0 <= k < j && key_matches(#[trigger] evals[k], node, env) {
        let k = choose|k: int| 0 <= k < j && key_matches(#[trigger] evals[k], node, env);
        lemma_first_match_exists(evals, node, env, k);
    } else {
        assert(first_match(evals, node, env, j));
    }
}

/// No entry of `evals` is for `(node, env)`.
pub open spec fn no_match<D>(evals: Seq<EvalEntry<D>>, node: Id, env: Seq<Val<D>>) -> bool {
    forall|j: int| 0 <= j < evals.len() ==> !key_matches(#[trigger] evals[j], node, env)
}

/// The entries of `evals` for node `node`, in order.
pub open spec fn entries_for<D: Domain>(evals: Seq<EvalEntry<D>>, node: Id) -> Seq<EvalEntry<D>>
    decreases evals.len(),
{
    if evals.len() == 0 {
        evals
    } else {
        let rest = entries_for(evals.drop_last(), node);
        if evals.last().0.0 == node {
            rest.push(evals.last())
        } else {
            rest
        }
    }
}

/// Every entry listed for `node` is an entry of `evals`, for `node`.
pub proof fn lemma_entries_for_in<D: Domain>(evals: Seq<EvalEntry<D>>, node: Id, a: int)
    requires
        0 <= a < entries_for(evals, node).len(),
    ensures
        exists|k: int| 0 <= k < evals.len() && #[trigger] evals[k] == entries_for(evals, node)[a],
        entries_for(evals, node)[a].0.0 == node,
    decreases evals.len(),
{
    let rest = entries_for(evals.drop_last(), node);
    if a < rest.len() {
        lemma_entries_for_in(evals.drop_last(), node, a);
        let k = choose|k: int| 0 <= k < evals.drop_last().len() && #[trigger] evals.drop_last()[k] == rest[a];
        assert(evals[k] == evals.drop_last()[k]);
    } else {
        assert(evals[evals.len() - 1] == evals.last());
    }
}

/// The entries listed for one node of a memo with distinct keys have
/// distinct keys.
pub proof fn lemma_entries_for_distinct<D: Domain>(evals: Seq<EvalEntry<D>>, node: Id)
    requires
        keys_distinct(evals),
    ensures
        keys_distinct(entries_for(evals, node)),
    decreases evals.len(),
{
    if evals.len() > 0 {
        let s0 = evals.drop_last();
        assert(keys_distinct(s0)) by {
            assert forall|i: int, j: int| #![trigger s0[i], s0[j]]
                0 <= i < j < s0.len() implies !key_matches(s0[j], s0[i].0.0, s0[i].0.1@) by {
                assert(s0[i] == evals[i] && s0[j] == evals[j]);
            }
        }
        lemma_entries_for_distinct(s0, node);
        let rest = entries_for(s0, node);
        let l = entries_for(evals, node);
        if evals.last().0.0 == node {
            assert forall|a: int, b: int| #![trigger l[a], l[b]]
                0 <= a < b < l.len() implies !key_matches(l[b], l[a].0.0, l[a].0.1@) by {
                if b < rest.len() {
                    assert(l[a] == rest[a] && l[b] == rest[b]);
                } else {
                    lemma_entries_for_in(s0, node, a);
                    let k = choose|k: int| 0 <= k < s0.len() && #[trigger] s0[k] == rest[a];
                    assert(evals[k] == s0[k]);
                    assert(l[b] == evals[evals.len() - 1]);
                    assert(l[a] == rest[a]);
                }
            }
        }
    }
}

impl<D> DomExpr<D> {
    /// The expression evaluated.
    pub closed spec fn expression(&self) -> Expr {
        self.expr
    }

    /// The remembered results, in the order they were recorded.
    pub closed spec fn memo(&self) -> Seq<EvalEntry<D>> {
        self.evals@
    }
}

impl<D: Domain> DomExpr<D> {
    /// The expression evaluated.
    pub fn expr(&self) -> (r: &Expr)
        ensures
            *r == self.expression(),
    {
        &self.expr
    }

    /// The remembered results, `((node, env), result)`, in the order they
    /// were recorded.
    pub fn evals(&self) -> (r: &Vec<EvalEntry<D>>)
        ensures
            r@ == self.memo(),
    {
        &self.evals
    }

    /// An expression with nothing evaluated yet.
    pub fn new(expr: Expr) -> (r: Self)
        ensures
            r.expression() == expr,
            r.memo() == Seq::<EvalEntry<D>>::empty(),
    {
        DomExpr { expr, evals: Vec::new() }
    }

    /// The position of the first memo entry for `(node, env)`; exact when the
    /// domain's `==` is equality. A found entry is always for `node`, in an
    /// environment of the same form as `env`.
    pub fn lookup(&self, node: Id, env: &[Val<D>]) -> (r: Option<usize>)
        ensures
            r matches Some(i) ==> i < self.memo().len() && self.memo()[i as int].0.0 == node
                && vals_shape(self.memo()[i as int].0.1@, env@),
            obeys_concrete_eq::<D>() ==> match r {
                Some(i) => first_match(self.memo(), node, env@, i as int),
                None => no_match(self.memo(), node, env@),
            },
    {
        self.lookup_from(node, env, 0)
    }

    /// The position of the first memo entry for `(node, env)` from position
    /// `from` on.
    fn lookup_from(&self, node: Id, env: &[Val<D>], from: usize) -> (r: Option<usize>)
        ensures
            r matches Some(i) ==> from <= i < self.memo().len() && self.memo()[i as int].0.0 == node
                && vals_shape(self.memo()[i as int].0.1@, env@),
            obeys_concrete_eq::<D>() ==> match r {
                Some(i) => key_matches(self.memo()[i as int], node, env@)
                    && forall|j: int| from <= j < i ==> !key_matches(#[trigger] self.memo()[j], node, env@),
                None => forall|j: int| from <= j < self.memo().len() ==> !key_matches(#[trigger] self.memo()[j], node, env@),
            },
            from == 0 && obeys_concrete_eq::<D>() ==> match r {
                Some(i) => first_match(self.memo(), node, env@, i as int),
                None => no_match(self.memo(), node, env@),
            },
    {
        let mut i: usize = from;
        while i < self.evals.len()
            invariant
                from <= i,
                i <= self.memo().len() || i == from,
                obeys_concrete_eq::<D>() ==> forall|j: int| from <= j < i ==> !key_matches(#[trigger] self.memo()[j], node, env@),
            decreases self.memo().len() - i,
        {
            let entry = &self.evals[i];
            if entry.0.0 == node && slices_equal(entry.0.1.as_slice(), env) {
                return Some(i);
            }
            i = i + 1;
        }
        None
    }

    /// Records that node `node` in environment `env` evaluates to `val`: the
    /// value of the first entry for the same key from position `from` on is
    /// replaced (its key stays), else a new entry with a copy of `env` is
    /// added at the end.
    fn remember(&mut self, node: Id, env: &[Val<D>], val: Val<D>, from: usize)
        requires
            from <= old(self).memo().len(),
        ensures
            memo_stored(*old(self), *final(self), node, env@, from as int, |w: Val<D>| w == val),
            exact_domain::<D>() && keys_distinct(old(self).memo())
                && (forall|j: int| 0 <= j < from ==> !key_matches(#[trigger] old(self).memo()[j], node, env@))
                ==> keys_distinct(final(self).memo()),
    {
        let found = self.lookup_from(node, env, from);
        let ghost s0 = *self;
        let ghost stored = |w: Val<D>| w == val;
        match found {
            Some(i) => {
                self.evals[i].1 = val;
                proof {
                    assert(self.memo() =~= s0.memo().update(i as int, (s0.memo()[i as int].0, self.memo()[i as int].1)));
                    assert(memo_replaced(s0, *self, node, from as int, stored));
                    if exact_domain::<D>() {
                        assert(key_matches(self.memo()[i as int], node, env@));
                        assert(!no_match(s0.memo(), node, env@));
                        if forall|j: int| 0 <= j < from ==> !key_matches(#[trigger] s0.memo()[j], node, env@) {
                            assert forall|j: int| 0 <= j < i implies !key_matches(#[trigger] self.memo()[j], node, env@) by {
                                assert(self.memo()[j] == s0.memo()[j]);
                            }
                            assert(first_match(self.memo(), node, env@, i as int));
                        }
                    }
                    assert(s0.memo()[i as int].0.0 == node);
                    if keys_distinct(s0.memo()) {
                        assert forall|a: int, b: int| #![trigger self.memo()[a], self.memo()[b]]
                            0 <= a < b < self.memo().len() implies !key_matches(self.memo()[b], self.memo()[a].0.0, self.memo()[a].0.1@) by {
                            assert(self.memo()[a].0 == s0.memo()[a].0);
                            assert(self.memo()[b].0 == s0.memo()[b].0);
                            assert(!key_matches(s0.memo()[b], s0.memo()[a].0.0, s0.memo()[a].0.1@));
                        }
                    }
                }
            },
            None => {
                let key = dup_vals(env);
                let ghost key_v = key@;
                proof {
                    if exact_domain::<D>() {
                        assert forall|k: int| 0 <= k < env@.len() implies val_eq(#[trigger] key_v[k], env@[k]) by {
                            lemma_cloned_eq(env@[k], key_v[k]);
                        }
                    }
                }
                self.evals.push(((node, key), val));
                proof {
                    assert(memo_pushed(s0, *self, node, env@, stored));
                    if exact_domain::<D>() {
                        if forall|j: int| 0 <= j < from ==> !key_matches(#[trigger] s0.memo()[j], node, env@) {
                            assert(first_match(self.memo(), node, env@, self.memo().len() - 1));
                            assert(stored(self.memo()[self.memo().len() - 1].1));
                            if keys_distinct(s0.memo()) {
                                let n = s0.memo().len() as int;
                                assert forall|a: int, b: int| #![trigger self.memo()[a], self.memo()[b]]
                                    0 <= a < b < self.memo().len() implies !key_matches(self.memo()[b], self.memo()[a].0.0, self.memo()[a].0.1@) by {
                                    if b < n {
                                        assert(self.memo()[a] == s0.memo()[a]);
                                        assert(self.memo()[b] == s0.memo()[b]);
                                    } else {
                                        let e = s0.memo()[a].0.1@;
                                        assert(self.memo()[a] == s0.memo()[a]);
                                        assert(!key_matches(s0.memo()[a], node, env@));
                                        if key_matches(self.memo()[b], self.memo()[a].0.0, e) {
                                            assert forall|k: int| 0 <= k < e.len() implies val_eq(#[trigger] e[k], env@[k]) by {
                                                assert(val_eq(key_v[k], e[k]));
                                                lemma_val_eq_sym(key_v[k], e[k]);
                                                lemma_val_eq_trans(e[k], key_v[k], env@[k]);
                                            }
                                            assert(key_matches(s0.memo()[a], node, env@));
                                        }
                                    }
                                }
                            }
                        }
                    }
                }
            },
        }
    }

    /// The (environment, result) pairs recorded for `node`, in the order they
    /// were recorded.
    pub fn evals_of_node(&self, node: Id) -> (r: Vec<(Vec<Val<D>>, Val<D>)>)
        ensures
            r@.len() == entries_for(self.memo(), node).len(),
            forall|k: int| 0 <= k < r@.len() ==> vals_cloned(entries_for(self.memo(), node)[k].0.1@, (#[trigger] r@[k]).0@)
                && val_cloned(entries_for(self.memo(), node)[k].1, r@[k].1),
            exact_domain::<D>() && keys_distinct(self.memo()) ==> forall|a: int, b: int| #![trigger r@[a], r@[b]]
                0 <= a < b < r@.len() ==> !vals_eq(r@[a].0@, r@[b].0@),
    {
        let mut r: Vec<(Vec<Val<D>>, Val<D>)> = Vec::new();
        let mut i: usize = 0;
        while i < self.evals.len()
            invariant
                i <= self.memo().len(),
                r@.len() == entries_for(self.memo().take(i as int), node).len(),
                forall|k: int| 0 <= k < r@.len() ==> vals_cloned(entries_for(self.memo().take(i as int), node)[k].0.1@, (#[trigger] r@[k]).0@)
                    && val_cloned(entries_for(self.memo().take(i as int), node)[k].1, r@[k].1),
            decreases self.memo().len() - i,
        {
            assert(self.memo().take(i + 1).drop_last() =~= self.memo().take(i as int));
            let entry = &self.evals[i];
            if entry.0.0 == node {
                r.push((dup_vals(entry.0.1.as_slice()), entry.1.dup()));
            }
            i = i + 1;
        }
        assert(self.memo().take(self.memo().len() as int) =~= self.memo());
        proof {
            if exact_domain::<D>() && keys_distinct(self.memo()) {
                let l = entries_for(self.memo(), node);
                lemma_entries_for_distinct(self.memo(), node);
                assert forall|a: int, b: int| #![trigger r@[a], r@[b]]
                    0 <= a < b < r@.len() implies !vals_eq(r@[a].0@, r@[b].0@) by {
                    lemma_entries_for_in(self.memo(), node, a);
                    lemma_entries_for_in(self.memo(), node, b);
                    let ea = l[a].0.1@;
                    let eb = l[b].0.1@;
                    let ra = r@[a].0@;
                    let rb = r@[b].0@;
                    if vals_eq(ra, rb) {
                        assert forall|k: int| 0 <= k < eb.len() implies val_eq(#[trigger] eb[k], ea[k]) by {
                            lemma_cloned_eq(ea[k], ra[k]);
                            lemma_cloned_eq(eb[k], rb[k]);
                            lemma_val_eq_trans(ea[k], ra[k], rb[k]);
                            lemma_val_eq_trans(ea[k], rb[k], eb[k]);
                            lemma_val_eq_sym(ea[k], eb[k]);
                        }
                        assert(key_matches(l[b], l[a].0.0, ea));
                    }
                }
            }
        }
        r
    }
}

/// `s1` keeps the expression of `s0` and every memo entry of it, in place;
/// more entries may follow.
pub open spec fn memo_kept<D>(s0: DomExpr<D>, s1: DomExpr<D>) -> bool {
    &&& s1.expression() == s0.expression()
    &&& s0.memo().len() <= s1.memo().len()
    &&& forall|j: int| 0 <= j < s0.memo().len() ==> #[trigger] s1.memo()[j] == s0.memo()[j]
}

pub proof fn lemma_memo_kept_trans<D: Domain>(a: DomExpr<D>, b: DomExpr<D>, c: DomExpr<D>)
    requires
        memo_kept(a, b),
        memo_kept(b, c),
    ensures
        memo_kept(a, c),
{
    assert forall|j: int| 0 <= j < a.memo().len() implies #[trigger] c.memo()[j] == a.memo()[j] by {
        assert(c.memo()[j] == b.memo()[j]);
    }
}

/// In an exact domain, `s1` has no two entries for the same key when `s0`
/// has none.
pub open spec fn distinct_kept<D: Domain>(s0: DomExpr<D>, s1: DomExpr<D>) -> bool {
    exact_domain::<D>() && keys_distinct(s0.memo()) ==> keys_distinct(s1.memo())
}

/// No memo entry of `evals` is for node `node`, in any environment.
pub open spec fn node_absent<D: Domain>(evals: Seq<EvalEntry<D>>, node: Id) -> bool {
    forall|j: int| 0 <= j < evals.len() ==> (#[trigger] evals[j]).0.0 != node
}

/// `s1` is `s0` with one more memo entry, at the end: node `child` in (a copy
/// of) `env`, with a stored value meeting `stored`.
pub open spec fn memo_pushed<D: Domain>(
    s0: DomExpr<D>,
    s1: DomExpr<D>,
    child: Id,
    env: Seq<Val<D>>,
    stored: spec_fn(Val<D>) -> bool,
) -> bool {
    &&& s1.expression() == s0.expression()
    &&& s1.memo().len() == s0.memo().len() + 1
    &&& forall|j: int| 0 <= j < s0.memo().len() ==> #[trigger] s1.memo()[j] == s0.memo()[j]
    &&& s1.memo().last().0.0 == child
    &&& vals_cloned(env, s1.memo().last().0.1@)
    &&& stored(s1.memo().last().1)
}

/// `s1` is `s0` with the value of one existing entry for node `child`, at
/// position `from` or later, replaced by one meeting `stored`; its key and
/// every other entry stay.
pub open spec fn memo_replaced<D: Domain>(
    s0: DomExpr<D>,
    s1: DomExpr<D>,
    child: Id,
    from: int,
    stored: spec_fn(Val<D>) -> bool,
) -> bool {
    &&& s1.expression() == s0.expression()
    &&& exists|i: int| #![trigger s0.memo()[i]]
        from <= i < s0.memo().len() && s0.memo()[i].0.0 == child
        && s1.memo() == s0.memo().update(i, (s0.memo()[i].0, s1.memo()[i].1))
        && stored(s1.memo()[i].1)
}

/// `s1` is `s0` after recording a result for node `child` in `env`, looking
/// for an existing entry from position `from` on, with a stored value meeting
/// `stored`: a new entry at the end, or the value of an entry for the same
/// node replaced; the entries before `from` stay. A new entry whenever no
/// entry from `from` on is for the node, or (in an exact domain) none is for
/// the node in an equal environment; in an exact domain where no entry
/// before `from` is for `(child, env)`, the first entry for it then holds the
/// stored value.
pub open spec fn memo_stored<D: Domain>(
    s0: DomExpr<D>,
    s1: DomExpr<D>,
    child: Id,
    env: Seq<Val<D>>,
    from: int,
    stored: spec_fn(Val<D>) -> bool,
) -> bool {
    &&& memo_pushed(s0, s1, child, env, stored) || memo_replaced(s0, s1, child, from, stored)
    &&& (forall|j: int| from <= j < s0.memo().len() ==> (#[trigger] s0.memo()[j]).0.0 != child)
        ==> memo_pushed(s0, s1, child, env, stored)
    &&& exact_domain::<D>() && no_match(s0.memo(), child, env) ==> memo_pushed(s0, s1, child, env, stored)
    &&& exact_domain::<D>() && (forall|j: int| 0 <= j < from ==> !key_matches(#[trigger] s0.memo()[j], child, env))
        ==> exists|i: int| first_match(s1.memo(), child, env, i) && stored(#[trigger] s1.memo()[i].1)
}

/// The outcome `r` of evaluating node `child` of `s0` in `env` with `fuel`
/// nested steps without using the memo, and the handle `s1` left afterwards.
/// A variable gives (a copy of) its environment entry, an abstraction a
/// closure over (a copy of) the environment, a primitive its runtime value;
/// an application evaluates the function, then the argument, then applies
/// the one to the other, stopping at the first error. A value is recorded
/// in the memo; an error leaves the memo as the last step left it.
pub open spec fn fresh_eval<D: Domain>(
    s0: DomExpr<D>,
    s1: DomExpr<D>,
    child: Id,
    env: Seq<Val<D>>,
    fuel: usize,
    r: Result<Val<D>, EvalError>,
) -> bool
    decreases fuel, 1int,
{
    match s0.expression().nodes@[child as int] {
        Lambda::Var(i) => if 0 <= i < env.len() {
            r matches Ok(v) && val_cloned(env[i as int], v) && memo_stored(s0, s1, child, env, s0.memo().len() as int, |w: Val<D>| val_cloned(v, w))
        } else {
            r == Err::<Val<D>, EvalError>(EvalError::UnboundVar) && s1 == s0
        },
        Lambda::Lam(b) => r matches Ok(v) && (v matches Val::LamClosure(b2, e2) && b2 == b && vals_cloned(env, e2@))
            && memo_stored(s0, s1, child, env, s0.memo().len() as int, |w: Val<D>| val_cloned(v, w)),
        Lambda::Prim(p) => match D::prim_value(p) {
            None => r == Err::<Val<D>, EvalError>(EvalError::UnknownPrim) && s1 == s0,
            Some(v0) => r == Ok::<Val<D>, EvalError>(v0) && memo_stored(s0, s1, child, env, s0.memo().len() as int, |w: Val<D>| val_cloned(v0, w)),
        },
        Lambda::Programs(_) => r == Err::<Val<D>, EvalError>(EvalError::Programs) && s1 == s0,
        Lambda::App(f, x) => if fuel == 0 {
            false
        } else {
            let fuel1 = (fuel - 1) as usize;
            // `a`, `b`, `c`: the handle and outcome after evaluating the
            // function, after evaluating the argument, and after applying
            exists|a: (DomExpr<D>, Result<Val<D>, EvalError>)| #![trigger a.0] eval_post(s0, a.0, f, env, fuel1, a.1) && match a.1 {
                Err(e) => r == Err::<Val<D>, EvalError>(e) && s1 == a.0,
                Ok(fv) => exists|b: (DomExpr<D>, Result<Val<D>, EvalError>)| #![trigger b.0] eval_post(a.0, b.0, x, env, fuel1, b.1) && match b.1 {
                    Err(e) => r == Err::<Val<D>, EvalError>(e) && s1 == b.0,
                    Ok(xv) => exists|c: (DomExpr<D>, Result<Val<D>, EvalError>)| #![trigger c.0] apply_post(b.0, c.0, fv, xv, fuel1, c.1) && match c.1 {
                        Err(e) => r == Err::<Val<D>, EvalError>(e) && s1 == c.0,
                        Ok(v) => r == Ok::<Val<D>, EvalError>(v) && memo_stored(c.0, s1, child, env, s0.memo().len() as int, |w: Val<D>| val_cloned(v, w)),
                    },
                },
            }
        },
    }
}

/// What applying `f` to `x` with `fuel` nested steps gives (`r`) and leaves
/// (`s1`): a domain value is no function; a closure evaluates its body with
/// (a copy of) `x` in front of its environment; a primitive receives one more
/// argument, and once it has all of them the domain computes the result.
pub open spec fn apply_post<D: Domain>(
    s0: DomExpr<D>,
    s1: DomExpr<D>,
    f: Val<D>,
    x: Val<D>,
    fuel: usize,
    r: Result<Val<D>, EvalError>,
) -> bool
    decreases fuel, 3int,
{
    &&& memo_kept(s0, s1)
    &&& distinct_kept(s0, s1)
    &&& match f {
        Val::Dom(_) => r == Err::<Val<D>, EvalError>(EvalError::NotAFunction) && s1 == s0,
        Val::LamClosure(b, env) => exists|env2: Seq<Val<D>>|
            #[trigger] vals_cloned(seq![x] + env@, env2) && eval_post(s0, s1, b, env2, fuel, r),
        Val::PrimFun(g) => r is Ok && (g.args().len() + 1 != g.arity() ==> s1 == s0
            && (r matches Ok(v) && (v matches Val::PrimFun(h) && h.prim() == g.prim() && h.arity() == g.arity()
                && vals_cloned(g.args().push(x), h.args()))))
            && (g.args().len() + 1 == g.arity() ==> (r matches Ok(v) && exists|args: &[Val<D>]|
                vals_cloned(g.args().push(x), args@) && #[trigger] D::prim_call(g.prim(), args, v))),
    }
}

/// What evaluating node `child` of `s0` in `env` with `fuel` nested steps
/// gives (`r`) and leaves (`s1`): with no fuel, `OutOfFuel`; for a node
/// outside the expression, `NoSuchNode`; otherwise a remembered result for
/// the node (a copy of it, nothing changed) or a fresh evaluation. With no
/// memo entry for the node the evaluation is fresh. In an exact domain the
/// remembered result is the first one recorded for the node in an equal
/// environment, used exactly when there is one, and a fresh value is then
/// remembered for that key.
pub open spec fn eval_post<D: Domain>(
    s0: DomExpr<D>,
    s1: DomExpr<D>,
    child: Id,
    env: Seq<Val<D>>,
    fuel: usize,
    r: Result<Val<D>, EvalError>,
) -> bool
    decreases fuel, 2int,
{
    &&& memo_kept(s0, s1)
    &&& distinct_kept(s0, s1)
    &&& fuel == 0 ==> r == Err::<Val<D>, EvalError>(EvalError::OutOfFuel) && s1 == s0
    &&& fuel > 0 && child >= s0.expression().nodes@.len() ==> r == Err::<Val<D>, EvalError>(EvalError::NoSuchNode) && s1 == s0
    &&& fuel > 0 && child < s0.expression().nodes@.len() ==> {
        ||| s1 == s0 && (r matches Ok(v) && exists|i: int|
            0 <= i < s0.memo().len() && (#[trigger] s0.memo()[i]).0.0 == child && vals_shape(s0.memo()[i].0.1@, env)
            && val_cloned(s0.memo()[i].1, v))
        ||| fresh_eval(s0, s1, child, env, fuel, r)
    }
    &&& fuel > 0 && child < s0.expression().nodes@.len() && node_absent(s0.memo(), child) ==> fresh_eval(s0, s1, child, env, fuel, r)
    &&& fuel > 0 && child < s0.expression().nodes@.len() && exact_domain::<D>() ==> {
        &&& forall|i: int| #[trigger] first_match(s0.memo(), child, env, i)
            ==> s1 == s0 && (r matches Ok(v) && val_cloned(s0.memo()[i].1, v))
        &&& no_match(s0.memo(), child, env) ==> {
            &&& fresh_eval(s0, s1, child, env, fuel, r)
            &&& r matches Ok(v) ==> exists|i: int| first_match(s1.memo(), child, env, i) && val_cloned(v, #[trigger] s1.memo()[i].1)
        }
    }
}

impl<D: Domain> DomExpr<D> {
    /// Applies a function value to an argument: a primitive receives one more
    /// argument; a closure evaluates its body with the argument in front of
    /// its captured environment.
    pub fn apply(&mut self, f: &Val<D>, x: &Val<D>, fuel: usize) -> (r: Result<Val<D>, EvalError>)
        ensures
            apply_post(*old(self), *final(self), *f, *x, fuel, r),
        decreases fuel, 1int,
    {
        match f {
            Val::PrimFun(g) => {
                let ghost s0 = *self;
                let v = g.apply(x, self, fuel);
                proof {
                    if g.args().len() + 1 != g.arity() {
                        assert(*self == s0);
                        assert(v matches Val::PrimFun(h) && h.prim() == g.prim() && h.arity() == g.arity()
                            && vals_cloned(g.args().push(*x), h.args()));
                    }
                }
                Ok(v)
            },
            Val::LamClosure(b, env) => {
                let mut new_env: Vec<Val<D>> = Vec::new();
                new_env.push(x.dup());
                let mut rest = dup_vals(env.as_slice());
                new_env.append(&mut rest);
                proof {
                    assert forall|i: int| 0 <= i < new_env@.len() implies val_cloned((seq![*x] + env@)[i], #[trigger] new_env@[i]) by {
                        if i > 0 {
                            assert((seq![*x] + env@)[i] == env@[i - 1]);
                        }
                    }
                }
                proof {
                    assert(vals_cloned(seq![*x] + env@, new_env@));
                }
                self.eval_child(*b, new_env.as_slice(), fuel)
            },
            Val::Dom(_) => Err(EvalError::NotAFunction),
        }
    }

    /// Evaluates the whole expression in `env`, with `fuel` as in
    /// `eval_child`.
    pub fn eval(&mut self, env: &[Val<D>], fuel: usize) -> (r: Result<Val<D>, EvalError>)
        requires
            old(self).expression().nodes@.len() > 0,
        ensures
            eval_post(*old(self), *final(self), (old(self).expression().nodes@.len() - 1) as Id, env@, fuel, r),
    {
        let root = self.expr.root();
        self.eval_child(root, env, fuel)
    }

    /// Evaluates node `child` in `env`, at most `fuel` nested steps deep, and
    /// remembers the result; a node already evaluated in an equal environment
    /// gives back its remembered result.
    ///
    /// `fuel` bounds the nesting of evaluations (each application spends
    /// one), so that every evaluation ends: with none left the result is
    /// `OutOfFuel`, before the memo is consulted. An unbound variable, a
    /// symbol that is no primitive of the domain, a corpus node and a domain
    /// value applied as a function give an error rather than stopping the
    /// program; which of them an evaluation meets depends on the values it
    /// computes, closures and primitives included.
    pub fn eval_child(&mut self, child: Id, env: &[Val<D>], fuel: usize) -> (r: Result<Val<D>, EvalError>)
        ensures
            eval_post(*old(self), *final(self), child, env@, fuel, r),
        decreases fuel, 0int,
    {
        if fuel == 0 {
            return Err(EvalError::OutOfFuel);
        }
        if child >= self.expr.nodes.len() {
            return Err(EvalError::NoSuchNode);
        }
        let ghost s0 = *self;
        let from = self.evals.len();
        if let Some(i) = self.lookup(child, env) {
            let v = self.evals[i].1.dup();
            proof {
                if obeys_concrete_eq::<D>() {
                    assert forall|k: int| #[trigger] first_match(s0.memo(), child, env@, k) implies k == i by {
                        if k < i {
                            assert(!key_matches(s0.memo()[k], child, env@));
                        } else if k > i {
                            assert(!key_matches(s0.memo()[i as int], child, env@));
                        }
                    }
                }
            }
            return Ok(v);
        }
        let node = self.expr.nodes[child].duplicate();
        let val = match node {
            Lambda::Var(i) => {
                if i < 0 || i as usize >= env.len() {
                    return Err(EvalError::UnboundVar);
                }
                env[i as usize].dup()
            },
            Lambda::App(f, x) => {
                let rf = self.eval_child(f, env, fuel - 1);
                let ghost sa = *self;
                let ghost pa = (sa, rf);
                proof {
                    assert(eval_post(s0, pa.0, f, env@, (fuel - 1) as usize, pa.1));
                }
                let f_val = match rf {
                    Ok(v) => v,
                    Err(e) => {
                        proof {
                            assert(fresh_eval(s0, *self, child, env@, fuel, Err(e)));
                        }
                        return Err(e);
                    },
                };
                let rx = self.eval_child(x, env, fuel - 1);
                let ghost sb = *self;
                let ghost pb = (sb, rx);
                proof {
                    assert(eval_post(pa.0, pb.0, x, env@, (fuel - 1) as usize, pb.1));
                }
                let x_val = match rx {
                    Ok(v) => v,
                    Err(e) => {
                        proof {
                            assert(fresh_eval(s0, *self, child, env@, fuel, Err(e)));
                        }
                        return Err(e);
                    },
                };
                let ra = self.apply(&f_val, &x_val, fuel - 1);
                let ghost sc = *self;
                let ghost pc = (sc, ra);
                proof {
                    assert(apply_post(pb.0, pc.0, f_val, x_val, (fuel - 1) as usize, pc.1));
                }
                match ra {
                    Ok(v) => v,
                    Err(e) => return Err(e),
                }
            },
            Lambda::Prim(p) => match D::val_of_prim(p) {
                Some(v) => v,
                None => return Err(EvalError::UnknownPrim),
            },
            Lambda::Lam(b) => Val::LamClosure(b, dup_vals(env)),
            Lambda::Programs(_) => return Err(EvalError::Programs),
        };
        let stored = val.dup();
        let ghost s_before = *self;
        proof {
            assert(memo_kept(s0, s_before));
            if exact_domain::<D>() {
                assert forall|j: int| 0 <= j < s0.memo().len() implies !key_matches(#[trigger] s_before.memo()[j], child, env@) by {
                    assert(s_before.memo()[j] == s0.memo()[j]);
                }
            }
        }
        self.remember(child, env, stored, from);
        proof {
            lemma_memo_stored_weaken(s_before, *self, child, env@, from as int, |w: Val<D>| w == stored, |w: Val<D>| val_cloned(val, w));
        }
        Ok(val)
    }
}

/// A record whose stored value meets `p` also meets any `q` that `p` implies.
pub proof fn lemma_memo_stored_weaken<D: Domain>(
    s0: DomExpr<D>,
    s1: DomExpr<D>,
    child: Id,
    env: Seq<Val<D>>,
    from: int,
    p: spec_fn(Val<D>) -> bool,
    q: spec_fn(Val<D>) -> bool,
)
    requires
        memo_stored(s0, s1, child, env, from, p),
        forall|w: Val<D>| #[trigger] p(w) ==> q(w),
    ensures
        memo_stored(s0, s1, child, env, from, q),
{
    if memo_replaced(s0, s1, child, from, p) {
        let i = choose|i: int| #![trigger s0.memo()[i]]
            from <= i < s0.memo().len() && s0.memo()[i].0.0 == child
            && s1.memo() == s0.memo().update(i, (s0.memo()[i].0, s1.memo()[i].1))
            && p(s1.memo()[i].1);
        assert(q(s1.memo()[i].1));
    }
    if exact_domain::<D>() && (forall|j: int| 0 <= j < from ==> !key_matches(#[trigger] s0.memo()[j], child, env)) {
        let i = choose|i: int| first_match(s1.memo(), child, env, i) && p(#[trigger] s1.memo()[i].1);
        assert(q(s1.memo()[i].1));
    }
}

/// Evaluating a node a second time in the same environment, after a first
/// evaluation succeeded, changes nothing and gives an equal value: the
/// remembered one.
pub proof fn law_eval_remembered<D: Domain>(
    s0: DomExpr<D>,
    s1: DomExpr<D>,
    s2: DomExpr<D>,
    child: Id,
    env: Seq<Val<D>>,
    fuel1: usize,
    fuel2: usize,
    r1: Result<Val<D>, EvalError>,
    r2: Result<Val<D>, EvalError>,
)
    requires
        exact_domain::<D>(),
        eval_post(s0, s1, child, env, fuel1, r1),
        eval_post(s1, s2, child, env, fuel2, r2),
        r1 is Ok,
        fuel2 > 0,
        child < s1.expression().nodes@.len(),
    ensures
        s2 == s1,
        r2 is Ok,
        val_eq(r1->Ok_0, r2->Ok_0),
{
    let v1 = r1->Ok_0;
    if exists|i: int| first_match(s0.memo(), child, env, i) {
        let i = choose|i: int| first_match(s0.memo(), child, env, i);
        let stored = s0.memo()[i].1;
        assert(s1 == s0);
        let v2 = r2->Ok_0;
        lemma_cloned_eq(stored, v1);
        lemma_cloned_eq(stored, v2);
        lemma_val_eq_trans(v1, stored, v2);
    } else {
        assert(no_match(s0.memo(), child, env)) by {
            if !no_match(s0.memo(), child, env) {
                let j = choose|j: int| 0 <= j < s0.memo().len() && key_matches(#[trigger] s0.memo()[j], child, env);
                lemma_first_match_exists(s0.memo(), child, env, j);
            }
        }
        let i = choose|i: int| first_match(s1.memo(), child, env, i) && val_cloned(v1, #[trigger] s1.memo()[i].1);
        let stored = s1.memo()[i].1;
        let v2 = r2->Ok_0;
        lemma_cloned_eq(v1, stored);
        lemma_cloned_eq(stored, v2);
        lemma_val_eq_trans(v1, stored, v2);
    }
}


/// Applying a closure whose body is the variable `$i` reads entry `i` of
/// the environment made of the argument followed by the captured
/// environment: `$0` is the argument, `$(i + 1)` the captured entry `i`. So
/// `((lam (lam $1)) u) v` gives `u`. Stated for an exact domain and a body
/// node not yet remembered.
pub proof fn law_closure_argument_comes_first<D: Domain>(
    s0: DomExpr<D>,
    s1: DomExpr<D>,
    b: Id,
    captured: Vec<Val<D>>,
    x: Val<D>,
    fuel: usize,
    r: Result<Val<D>, EvalError>,
    i: i32,
)
    requires
        exact_domain::<D>(),
        apply_post(s0, s1, Val::LamClosure(b, captured), x, fuel, r),
        fuel > 0,
        b < s0.expression().nodes@.len(),
        s0.expression().nodes@[b as int] == Lambda::Var(i),
        node_absent(s0.memo(), b),
        0 <= i <= captured@.len(),
    ensures
        r is Ok,
        i == 0 ==> val_eq(r->Ok_0, x),
        i > 0 ==> val_eq(r->Ok_0, captured@[i - 1]),
{
    let full = seq![x] + captured@;
    let env2 = choose|env2: Seq<Val<D>>| #[trigger] vals_cloned(full, env2) && eval_post(s0, s1, b, env2, fuel, r);
    assert(fresh_eval(s0, s1, b, env2, fuel, r));
    let v = r->Ok_0;
    assert(val_cloned(full[i as int], env2[i as int]));
    lemma_cloned_eq(full[i as int], env2[i as int]);
    lemma_cloned_eq(env2[i as int], v);
    lemma_val_eq_trans(v, env2[i as int], full[i as int]);
    if i > 0 {
        assert(full[i as int] == captured@[i - 1]);
    }
}

} // verus!
