//! The lambda-calculus node language and its meaning as trees.
//!
//! Arithmetic on de Bruijn indices and on costs is `i32` arithmetic that wraps
//! on overflow, as in an optimised build of the tool.

use vstd::prelude::*;

verus! {

/// Interned primitive names.
#[verifier::external_type_specification]
#[verifier::external_body]
pub struct ExSymbol(egg::Symbol);

/// Copies an interned symbol.
///
/// Trusted: `egg::Symbol` (`symbol_table::GlobalSymbol`) derives `Copy` and
/// `Clone`, so a clone is the same value.
pub assume_specification[ <egg::Symbol as Clone>::clone ](s: &egg::Symbol) -> (r: egg::Symbol)
    ensures
        r == *s,
;

/// The interned symbol of a name.
///
/// Trusted: `egg::Symbol::from(&str)` (`symbol_table::GlobalSymbol`) interns
/// the string and returns its symbol; nothing is claimed of the value, which
/// depends on what the process interned before.
#[verifier::external_body]
pub(crate) fn symbol_from_str(s: &str) -> egg::Symbol {
    egg::Symbol::from(s)
}

/// Index of a node in an expression graph or a flat expression.
pub type Id = usize;

/// Cost of an application or abstraction node.
pub const COST_NONTERMINAL: i32 = 1;

/// Cost of a variable or primitive leaf.
pub const COST_TERMINAL: i32 = 100;

/// Compares two interned symbols.
///
/// Trusted: `egg::Symbol` (`symbol_table::GlobalSymbol`) derives `PartialEq`
/// over its single interned index, so `==` holds exactly of identical values.
#[verifier::external_body]
pub fn symbols_equal(a: &egg::Symbol, b: &egg::Symbol) -> (r: bool)
    ensures
        r == (*a == *b),
{
    *a == *b
}

/// One node of a lambda expression; children are referred to by index.
#[derive(Debug, Clone)]
pub enum Lambda {
    /// De Bruijn variable.
    Var(i32),
    /// Application of a function to an argument.
    App(Id, Id),
    /// Abstraction with the given body.
    Lam(Id),
    /// Named primitive.
    Prim(egg::Symbol),
    /// A corpus of programs.
    Programs(Vec<Id>),
}

/// The tree that a node denotes.
pub enum Term {
    Var(i32),
    App(Box<Term>, Box<Term>),
    Lam(Box<Term>),
    Prim(egg::Symbol),
    Programs(Seq<Term>),
}

impl Lambda {
    pub open spec fn children(self) -> Seq<Id> {
        match self {
            Lambda::Var(_) => seq![],
            Lambda::Prim(_) => seq![],
            Lambda::App(f, x) => seq![f, x],
            Lambda::Lam(b) => seq![b],
            Lambda::Programs(ps) => ps@,
        }
    }

    /// Two nodes are the same node: same operator, same children.
    pub open spec fn same(self, other: Lambda) -> bool {
        match (self, other) {
            (Lambda::Var(i), Lambda::Var(j)) => i == j,
            (Lambda::Prim(p), Lambda::Prim(q)) => p == q,
            (Lambda::App(f, x), Lambda::App(g, y)) => f == g && x == y,
            (Lambda::Lam(b), Lambda::Lam(c)) => b == c,
            (Lambda::Programs(ps), Lambda::Programs(qs)) => ps@ == qs@,
            _ => false,
        }
    }

    /// The children of this node, in order.
    pub fn child_ids(&self) -> (r: Vec<Id>)
        ensures
            r@ == self.children(),
    {
        match self {
            Lambda::Var(_) => Vec::new(),
            Lambda::Prim(_) => Vec::new(),
            Lambda::App(f, x) => {
                let mut v = Vec::new();
                v.push(*f);
                v.push(*x);
                assert(v@ =~= self.children());
                v
            },
            Lambda::Lam(b) => {
                let mut v = Vec::new();
                v.push(*b);
                assert(v@ =~= self.children());
                v
            },
            Lambda::Programs(ps) => clone_ids(ps),
        }
    }

    /// A copy of this node.
    pub fn duplicate(&self) -> (r: Lambda)
        ensures
            r.same(*self),
    {
        match self {
            Lambda::Var(i) => Lambda::Var(*i),
            Lambda::Prim(p) => Lambda::Prim(*p),
            Lambda::App(f, x) => Lambda::App(*f, *x),
            Lambda::Lam(b) => Lambda::Lam(*b),
            Lambda::Programs(ps) => Lambda::Programs(clone_ids(ps)),
        }
    }

    /// Whether two nodes are the same node.
    pub fn same_as(&self, other: &Lambda) -> (r: bool)
        ensures
            r == self.same(*other),
    {
        match (self, other) {
            (Lambda::Var(i), Lambda::Var(j)) => *i == *j,
            (Lambda::Prim(p), Lambda::Prim(q)) => symbols_equal(p, q),
            (Lambda::App(f, x), Lambda::App(g, y)) => *f == *g && *x == *y,
            (Lambda::Lam(b), Lambda::Lam(c)) => *b == *c,
            (Lambda::Programs(ps), Lambda::Programs(qs)) => ids_equal(ps, qs),
            _ => false,
        }
    }
}

/// A copy of a list of ids.
pub fn clone_ids(v: &Vec<Id>) -> (r: Vec<Id>)
    ensures
        r@ == v@,
{
    let mut r: Vec<Id> = Vec::new();
    let mut i: usize = 0;
    while i < v.len()
        invariant
            i <= v.len(),
            r@ == v@.take(i as int),
        decreases v.len() - i,
    {
        r.push(v[i]);
        i = i + 1;
        assert(r@ =~= v@.take(i as int));
    }
    assert(v@.take(v.len() as int) =~= v@);
    r
}

/// Whether two lists of ids are equal.
pub fn ids_equal(a: &Vec<Id>, b: &Vec<Id>) -> (r: bool)
    ensures
        r == (a@ == b@),
{
    if a.len() != b.len() {
        return false;
    }
    let mut i: usize = 0;
    while i < a.len()
        invariant
            i <= a.len(),
            a.len() == b.len(),
            a@.take(i as int) == b@.take(i as int),
        decreases a.len() - i,
    {
        if a[i] != b[i] {
            assert(a@[i as int] != b@[i as int]);
            return false;
        }
        assert(a@.take(i + 1) =~= a@.take(i as int).push(a@[i as int]));
        assert(b@.take(i + 1) =~= b@.take(i as int).push(b@[i as int]));
        i = i + 1;
    }
    assert(a@.take(a.len() as int) =~= a@);
    assert(b@.take(b.len() as int) =~= b@);
    true
}

/// Every child of node `i` comes before it.
pub open spec fn children_before(nodes: Seq<Lambda>) -> bool {
    forall|i: int, j: int|
        0 <= i < nodes.len() && 0 <= j < nodes[i].children().len() ==> #[trigger] nodes[i].children()[j] < i
}

/// The tree denoted by node `id` of `nodes`.
pub open spec fn term_of(nodes: Seq<Lambda>, id: int) -> Term
    decreases id,
{
    if 0 <= id < nodes.len() && children_before(nodes) {
        match nodes[id] {
            Lambda::Var(i) => Term::Var(i),
            Lambda::Prim(p) => Term::Prim(p),
            Lambda::App(f, x) => {
                proof {
                    assert(nodes[id].children()[0] < id);
                    assert(nodes[id].children()[1] < id);
                }
                Term::App(Box::new(term_of(nodes, f as int)), Box::new(term_of(nodes, x as int)))
            },
            Lambda::Lam(b) => {
                proof {
                    assert(nodes[id].children()[0] < id);
                }
                Term::Lam(Box::new(term_of(nodes, b as int)))
            },
            Lambda::Programs(ps) => Term::Programs(
                Seq::new(
                    ps@.len(),
                    |k: int|
                        if 0 <= k < ps@.len() {
                            proof {
                                assert(nodes[id].children()[k] < id);
                            }
                            term_of(nodes, ps@[k] as int)
                        } else {
                            Term::Var(0)
                        },
                ),
            ),
        }
    } else {
        Term::Var(0)
    }
}

/// The index one level further out: `x - 1`, wrapping.
pub open spec fn outer_index(x: i32) -> i32 {
    x.wrapping_sub(1)
}

/// The free variables of a term, each given as how far above the term's root
/// the binder it refers to sits.
pub open spec fn upward_refs(t: Term) -> Set<i32>
    decreases t,
{
    match t {
        Term::Var(i) => set![i],
        Term::Prim(_) => Set::empty(),
        Term::App(f, x) => upward_refs(*f).union(upward_refs(*x)),
        Term::Lam(b) => Set::new(|y: i32| y >= 0 && exists|x: i32| #[trigger] upward_refs(*b).contains(x) && outer_index(x) == y),
        Term::Programs(_) => Set::empty(),
    }
}

/// The size of a term: leaves cost `COST_TERMINAL`, applications and
/// abstractions `COST_NONTERMINAL` plus their children, a corpus the sum of
/// its programs.
pub open spec fn term_cost(t: Term) -> i32
    decreases t,
{
    match t {
        Term::Var(_) => COST_TERMINAL,
        Term::Prim(_) => COST_TERMINAL,
        Term::App(f, x) => COST_NONTERMINAL.wrapping_add(term_cost(*f)).wrapping_add(term_cost(*x)),
        Term::Lam(b) => COST_NONTERMINAL.wrapping_add(term_cost(*b)),
        Term::Programs(ps) => costs_sum(ps),
    }
}

/// The wrapping sum of the costs of a sequence of terms, left to right.
pub open spec fn costs_sum(ps: Seq<Term>) -> i32
    decreases ps,
{
    if ps.len() == 0 {
        0
    } else {
        costs_sum(ps.drop_last()).wrapping_add(term_cost(ps.last()))
    }
}

/// The wrapping sum of a sequence of costs, left to right.
pub open spec fn wrapping_sum(cs: Seq<i32>) -> i32
    decreases cs.len(),
{
    if cs.len() == 0 {
        0
    } else {
        wrapping_sum(cs.drop_last()).wrapping_add(cs.last())
    }
}

} // verus!
