//! Flat expressions (children before parents, root last) and their cost.

use vstd::prelude::*;
use crate::lambda::{children_before, costs_sum, term_cost, term_of, wrapping_sum, Id, Lambda, Term, COST_NONTERMINAL, COST_TERMINAL};

verus! {

/// A flat expression: each node's children come before it; the last node is
/// the root.
#[derive(Debug, Clone)]
pub struct Expr {
    pub nodes: Vec<Lambda>,
}

impl Expr {
    pub open spec fn wf(&self) -> bool {
        children_before(self.nodes@)
    }

    /// The tree at position `id`.
    pub open spec fn term(&self, id: int) -> Term {
        term_of(self.nodes@, id)
    }

    /// The tree of the whole expression.
    pub open spec fn root_term(&self) -> Term {
        term_of(self.nodes@, self.nodes@.len() - 1)
    }

    pub fn new() -> (e: Expr)
        ensures
            e.wf(),
            e.nodes@ == Seq::<Lambda>::empty(),
    {
        Expr { nodes: Vec::new() }
    }

    /// Appends a node whose children are already present; returns its
    /// position.
    pub fn add(&mut self, node: Lambda) -> (id: Id)
        requires
            old(self).wf(),
            forall|j: int| 0 <= j < node.children().len() ==> #[trigger] node.children()[j] < old(self).nodes@.len(),
        ensures
            final(self).wf(),
            final(self).nodes@ == old(self).nodes@.push(node),
            id == old(self).nodes@.len(),
            forall|i: int| 0 <= i < old(self).nodes@.len() ==> #[trigger] final(self).term(i) == old(self).term(i),
    {
        proof {
            crate::graph::lemma_children_before_push(self.nodes@, node);
            assert forall|i: int| 0 <= i < self.nodes@.len() implies #[trigger] term_of(self.nodes@.push(node), i) == term_of(self.nodes@, i) by {
                crate::graph::lemma_term_prefix(self.nodes@, self.nodes@.push(node), i);
            }
        }
        let id = self.nodes.len();
        self.nodes.push(node);
        id
    }

    /// The position of the root.
    pub fn root(&self) -> (id: Id)
        requires
            self.nodes@.len() > 0,
        ensures
            id == self.nodes@.len() - 1,
    {
        self.nodes.len() - 1
    }
}

/// The cost of one node given the costs of the nodes before it.
pub open spec fn node_cost(enode: Lambda, costs: Seq<i32>) -> i32 {
    match enode {
        Lambda::Var(_) => COST_TERMINAL,
        Lambda::Prim(_) => COST_TERMINAL,
        Lambda::App(f, x) => COST_NONTERMINAL.wrapping_add(costs[f as int]).wrapping_add(costs[x as int]),
        Lambda::Lam(b) => COST_NONTERMINAL.wrapping_add(costs[b as int]),
        Lambda::Programs(ps) => wrapping_sum(ps@.map_values(|p: Id| costs[p as int])),
    }
}

/// The cost function on nodes: leaves cost `COST_TERMINAL`, applications and
/// abstractions `COST_NONTERMINAL` more than their children, a corpus the sum
/// of its programs.
pub struct ProgramCost {}

impl ProgramCost {
    /// The cost of `enode` given the costs of the nodes it refers to.
    pub fn cost(&mut self, enode: &Lambda, costs: &Vec<i32>) -> (c: i32)
        requires
            forall|j: int| 0 <= j < enode.children().len() ==> #[trigger] enode.children()[j] < costs@.len(),
        ensures
            c == node_cost(*enode, costs@),
    {
        match enode {
            Lambda::Var(_) => COST_TERMINAL,
            Lambda::Prim(_) => COST_TERMINAL,
            Lambda::App(f, x) => {
                assert(enode.children()[0] < costs@.len());
                assert(enode.children()[1] < costs@.len());
                COST_NONTERMINAL.wrapping_add(costs[*f]).wrapping_add(costs[*x])
            },
            Lambda::Lam(b) => {
                assert(enode.children()[0] < costs@.len());
                COST_NONTERMINAL.wrapping_add(costs[*b])
            },
            Lambda::Programs(ps) => {
                let ghost cs = ps@.map_values(|p: Id| costs@[p as int]);
                let mut sum: i32 = 0;
                let mut k: usize = 0;
                while k < ps.len()
                    invariant
                        k <= ps@.len(),
                        *enode == Lambda::Programs(*ps),
                        forall|j: int| 0 <= j < enode.children().len() ==> #[trigger] enode.children()[j] < costs@.len(),
                        cs == ps@.map_values(|p: Id| costs@[p as int]),
                        sum == wrapping_sum(cs.take(k as int)),
                    decreases ps@.len() - k,
                {
                    assert(enode.children()[k as int] < costs@.len());
                    assert(cs.take(k + 1).drop_last() =~= cs.take(k as int));
                    sum = sum.wrapping_add(costs[ps[k]]);
                    k = k + 1;
                }
                assert(cs.take(ps@.len() as int) =~= cs);
                sum
            },
        }
    }
}

/// The cost of a corpus is the sum of the costs of its programs, whichever way
/// the terms are listed.
pub proof fn lemma_costs_sum(ts: Seq<Term>)
    ensures
        costs_sum(ts) == wrapping_sum(ts.map_values(|t: Term| term_cost(t))),
    decreases ts.len(),
{
    if ts.len() > 0 {
        lemma_costs_sum(ts.drop_last());
        assert(ts.map_values(|t: Term| term_cost(t)).drop_last() =~= ts.drop_last().map_values(|t: Term| term_cost(t)));
    }
}

/// The cost of the root of `expr`.
pub fn cost_rec(expr: &Expr) -> (c: i32)
    requires
        expr.wf(),
        expr.nodes@.len() > 0,
    ensures
        c == term_cost(expr.root_term()),
{
    let mut pc = ProgramCost {};
    let mut costs: Vec<i32> = Vec::new();
    let mut i: usize = 0;
    while i < expr.nodes.len()
        invariant
            expr.wf(),
            i <= expr.nodes@.len(),
            costs@.len() == i,
            forall|j: int| 0 <= j < i ==> #[trigger] costs@[j] == term_cost(expr.term(j)),
        decreases expr.nodes@.len() - i,
    {
        let node = &expr.nodes[i];
        proof {
            assert forall|j: int| 0 <= j < node.children().len() implies #[trigger] node.children()[j] < costs@.len() by {
                assert(expr.nodes@[i as int].children()[j] < i);
            }
        }
        let c = pc.cost(node, &costs);
        proof {
            match expr.nodes@[i as int] {
                Lambda::Programs(ps) => {
                    let ts = Seq::new(ps@.len(), |k: int| expr.term(ps@[k] as int));
                    assert forall|k: int| 0 <= k < ps@.len() implies #[trigger] ps@[k] < i by {
                        assert(expr.nodes@[i as int].children()[k] < i);
                    }
                    if let Term::Programs(tt) = expr.term(i as int) {
                        assert(tt =~= ts);
                    }
                    lemma_costs_sum(ts);
                    assert(ts.map_values(|t: Term| term_cost(t)) =~= ps@.map_values(|p: Id| costs@[p as int]));
                },
                Lambda::App(f, x) => {
                    assert(expr.nodes@[i as int].children()[0] < i);
                    assert(expr.nodes@[i as int].children()[1] < i);
                },
                Lambda::Lam(b) => {
                    assert(expr.nodes@[i as int].children()[0] < i);
                },
                _ => {},
            }
        }
        costs.push(c);
        i = i + 1;
    }
    costs[costs.len() - 1]
}

/// `t` under `n` abstractions.
pub open spec fn wrap_lams(t: Term, n: nat) -> Term
    decreases n,
{
    if n == 0 {
        t
    } else {
        Term::Lam(Box::new(wrap_lams(t, (n - 1) as nat)))
    }
}

} // verus!
