//! A hash-consed graph of lambda nodes with, for each node, the analysis data
//! the search reads: the node's free variables and its size.

use std::collections::HashSet;
use vstd::prelude::*;
use crate::expr::Expr;
use crate::lambda::{
    children_before, costs_sum, outer_index, term_cost, term_of, upward_refs, Id, Lambda, Term,
    COST_NONTERMINAL, COST_TERMINAL,
};

verus! {

broadcast use vstd::std_specs::hash::group_hash_axioms;

/// What is known of each node.
pub struct Data {
    /// "How much higher" each free variable of the node points.
    pub upward_refs: HashSet<i32>,
    /// The node's size without any invention.
    pub inventionless_cost: i32,
}

/// Nodes stored once each (hash-consing), children before parents, each with
/// its `Data`.
pub struct ProgramGraph {
    nodes: Vec<Lambda>,
    data: Vec<Data>,
}

/// `nodes` extended by `n`, read at `n`'s position: the tree `n` denotes.
pub open spec fn node_term(nodes: Seq<Lambda>, n: Lambda) -> Term {
    term_of(nodes.push(n), nodes.len() as int)
}

/// Every child of `n` is a node of `nodes`.
pub open spec fn children_in(nodes: Seq<Lambda>, n: Lambda) -> bool {
    forall|j: int| 0 <= j < n.children().len() ==> #[trigger] n.children()[j] < nodes.len()
}

/// No node occurs twice.
pub open spec fn all_distinct(nodes: Seq<Lambda>) -> bool {
    forall|i: int, j: int| 0 <= i < nodes.len() && 0 <= j < nodes.len() && i != j ==> !(#[trigger] nodes[i]).same(#[trigger] nodes[j])
}

/// A corpus node only holds closed programs.
pub open spec fn programs_closed(nodes: Seq<Lambda>, n: Lambda) -> bool {
    n is Programs ==> forall|j: int| 0 <= j < n.children().len() ==> upward_refs(#[trigger] term_of(nodes, n.children()[j] as int)).is_empty()
}

pub proof fn lemma_children_before_push(nodes: Seq<Lambda>, n: Lambda)
    requires
        children_before(nodes),
        children_in(nodes, n),
    ensures
        children_before(nodes.push(n)),
{
    let s = nodes.push(n);
    assert forall|i: int, j: int| 0 <= i < s.len() && 0 <= j < s[i].children().len() implies #[trigger] s[i].children()[j] < i by {
        if i < nodes.len() {
            assert(s[i] == nodes[i]);
        }
    }
}

/// Extending a graph leaves the trees of its nodes unchanged.
pub proof fn lemma_term_prefix(a: Seq<Lambda>, b: Seq<Lambda>, id: int)
    requires
        children_before(a),
        children_before(b),
        a.len() <= b.len(),
        forall|i: int| 0 <= i < a.len() ==> a[i] == b[i],
        0 <= id < a.len(),
    ensures
        term_of(a, id) == term_of(b, id),
    decreases id,
{
    assert(a[id] == b[id]);
    match a[id] {
        Lambda::App(f, x) => {
            assert(a[id].children()[0] < id);
            assert(a[id].children()[1] < id);
            lemma_term_prefix(a, b, f as int);
            lemma_term_prefix(a, b, x as int);
        },
        Lambda::Lam(c) => {
            assert(a[id].children()[0] < id);
            lemma_term_prefix(a, b, c as int);
        },
        Lambda::Programs(ps) => {
            assert forall|k: int| 0 <= k < ps@.len() implies term_of(a, ps@[k] as int) == term_of(b, ps@[k] as int) by {
                assert(a[id].children()[k] < id);
                lemma_term_prefix(a, b, ps@[k] as int);
            }
            if let Term::Programs(ta) = term_of(a, id) {
                if let Term::Programs(tb) = term_of(b, id) {
                    assert(ta =~= tb);
                }
            }
        },
        _ => {},
    }
}

/// A node that is `same` as an existing one denotes the same tree.
pub proof fn lemma_same_node_term(nodes: Seq<Lambda>, i: int, n: Lambda)
    requires
        children_before(nodes),
        children_in(nodes, n),
        0 <= i < nodes.len(),
        nodes[i].same(n),
    ensures
        term_of(nodes, i) == node_term(nodes, n),
{
    let s = nodes.push(n);
    lemma_children_before_push(nodes, n);
    assert forall|c: int| 0 <= c < nodes.len() implies term_of(nodes, c) == term_of(s, c) by {
        lemma_term_prefix(nodes, s, c);
    }
    match n {
        Lambda::App(f, x) => {
            assert(n.children()[0] < nodes.len());
            assert(n.children()[1] < nodes.len());
        },
        Lambda::Lam(c) => {
            assert(n.children()[0] < nodes.len());
        },
        Lambda::Programs(ps) => {
            if let Lambda::Programs(qs) = nodes[i] {
                assert forall|k: int| 0 <= k < ps@.len() implies term_of(nodes, qs@[k] as int) == term_of(s, ps@[k] as int) by {
                    assert(n.children()[k] < nodes.len());
                }
                if let Term::Programs(ta) = term_of(nodes, i) {
                    if let Term::Programs(tb) = term_of(s, nodes.len() as int) {
                        assert(ta =~= tb);
                    }
                }
            }
        },
        _ => {},
    }
}

impl ProgramGraph {
    /// The nodes, in insertion order.
    pub closed spec fn nodes(&self) -> Seq<Lambda> {
        self.nodes@
    }

    /// The tree that node `id` denotes.
    pub open spec fn term(&self, id: int) -> Term {
        term_of(self.nodes(), id)
    }

    /// Children come before parents, no node occurs twice, and each node's
    /// data describes its tree.
    pub closed spec fn wf(&self) -> bool {
        &&& self.nodes@.len() == self.data@.len()
        &&& children_before(self.nodes@)
        &&& all_distinct(self.nodes@)
        &&& forall|i: int| 0 <= i < self.nodes@.len() ==> {
            &&& (#[trigger] self.data@[i]).upward_refs@ == upward_refs(term_of(self.nodes@, i))
            &&& self.data@[i].inventionless_cost == term_cost(term_of(self.nodes@, i))
        }
    }

    pub proof fn lemma_wf(&self)
        requires
            self.wf(),
        ensures
            children_before(self.nodes()),
            all_distinct(self.nodes()),
    {
    }

    /// An empty graph.
    pub fn new() -> (g: ProgramGraph)
        ensures
            g.wf(),
            g.nodes() == Seq::<Lambda>::empty(),
    {
        ProgramGraph { nodes: Vec::new(), data: Vec::new() }
    }

    /// Number of nodes.
    pub fn len(&self) -> (n: usize)
        ensures
            n == self.nodes().len(),
    {
        self.nodes.len()
    }

    /// The node stored at `id`.
    pub fn node(&self, id: Id) -> (n: &Lambda)
        requires
            id < self.nodes().len(),
        ensures
            *n == self.nodes()[id as int],
    {
        &self.nodes[id]
    }

    /// Node `i` applies an abstraction directly to an argument.
    pub open spec fn applies_lambda_at(&self, i: int) -> bool {
        self.nodes()[i] matches Lambda::App(f, _) && f < self.nodes().len() && self.nodes()[f as int] is Lam
    }

    /// Whether some node applies an abstraction directly to an argument,
    /// `(app (lam body) arg)`.
    pub fn has_applied_lambda(&self) -> (r: bool)
        requires
            self.wf(),
        ensures
            r == exists|i: int| 0 <= i < self.nodes().len() && #[trigger] self.applies_lambda_at(i),
    {
        proof {
            self.lemma_wf();
        }
        let mut i: usize = 0;
        while i < self.nodes.len()
            invariant
                i <= self.nodes().len(),
                children_before(self.nodes()),
                forall|j: int| 0 <= j < i ==> !#[trigger] self.applies_lambda_at(j),
            decreases self.nodes().len() - i,
        {
            if let Lambda::App(f, _) = &self.nodes[i] {
                assert(self.nodes()[i as int].children()[0] < i);
                if let Lambda::Lam(_) = &self.nodes[*f] {
                    assert(self.applies_lambda_at(i as int));
                    return true;
                }
            }
            i = i + 1;
        }
        false
    }

    /// The free variables of node `id`.
    pub fn upward_refs(&self, id: Id) -> (r: &HashSet<i32>)
        requires
            self.wf(),
            id < self.nodes().len(),
        ensures
            r@ == upward_refs(self.term(id as int)),
    {
        &self.data[id].upward_refs
    }

    /// The size of node `id` without inventions.
    pub fn inventionless_cost(&self, id: Id) -> (c: i32)
        requires
            self.wf(),
            id < self.nodes().len(),
        ensures
            c == term_cost(self.term(id as int)),
    {
        self.data[id].inventionless_cost
    }

    /// The class of `id`. Classes are never merged here, so each id is its own
    /// representative.
    pub fn find(&self, id: Id) -> (r: Id)
        requires
            id < self.nodes().len(),
        ensures
            r == id,
    {
        id
    }

    /// The id of a node `same` as `n`, if the graph holds one.
    pub fn lookup(&self, n: &Lambda) -> (r: Option<Id>)
        ensures
            match r {
                Some(i) => i < self.nodes().len() && self.nodes()[i as int].same(*n),
                None => forall|i: int| 0 <= i < self.nodes().len() ==> !(#[trigger] self.nodes()[i]).same(*n),
            },
    {
        let mut i: usize = 0;
        while i < self.nodes.len()
            invariant
                i <= self.nodes@.len(),
                forall|j: int| 0 <= j < i ==> !(#[trigger] self.nodes@[j]).same(*n),
            decreases self.nodes@.len() - i,
        {
            if self.nodes[i].same_as(n) {
                return Some(i);
            }
            i = i + 1;
        }
        None
    }

    /// The analysis data of a node about to be added: its free variables and
    /// its size, computed from its children's data.
    pub fn make(&self, enode: &Lambda) -> (d: Data)
        requires
            self.wf(),
            children_in(self.nodes(), *enode),
            programs_closed(self.nodes(), *enode),
        ensures
            d.upward_refs@ == upward_refs(node_term(self.nodes(), *enode)),
            d.inventionless_cost == term_cost(node_term(self.nodes(), *enode)),
    {
        let ghost nodes = self.nodes@;
        let ghost s = nodes.push(*enode);
        proof {
            lemma_children_before_push(nodes, *enode);
            assert forall|c: int| 0 <= c < nodes.len() implies term_of(nodes, c) == term_of(s, c) by {
                lemma_term_prefix(nodes, s, c);
            }
        }
        let mut refs: HashSet<i32> = HashSet::new();
        let cost: i32;
        match enode {
            Lambda::Var(i) => {
                refs.insert(*i);
                assert(refs@ =~= set![*i]);
                cost = COST_TERMINAL;
            },
            Lambda::Prim(_) => {
                assert(refs@ =~= Set::<i32>::empty());
                cost = COST_TERMINAL;
            },
            Lambda::App(f, x) => {
                assert(enode.children()[0] < nodes.len());
                assert(enode.children()[1] < nodes.len());
                union_into(&mut refs, &self.data[*f].upward_refs);
                union_into(&mut refs, &self.data[*x].upward_refs);
                assert(refs@ =~= upward_refs(term_of(s, *f as int)).union(upward_refs(term_of(s, *x as int))));
                cost = COST_NONTERMINAL.wrapping_add(self.data[*f].inventionless_cost).wrapping_add(self.data[*x].inventionless_cost);
            },
            Lambda::Lam(b) => {
                assert(enode.children()[0] < nodes.len());
                lift_refs_into(&mut refs, &self.data[*b].upward_refs);
                assert(refs@ =~= upward_refs(node_term(nodes, *enode)));
                cost = COST_NONTERMINAL.wrapping_add(self.data[*b].inventionless_cost);
            },
            Lambda::Programs(ps) => {
                assert(refs@ =~= Set::<i32>::empty());
                let ghost ts = Seq::new(ps@.len(), |k: int| term_of(s, ps@[k] as int));
                let mut sum: i32 = 0;
                let mut k: usize = 0;
                while k < ps.len()
                    invariant
                        self.wf(),
                        nodes == self.nodes@,
                        k <= ps@.len(),
                        children_in(nodes, *enode),
                        *enode == Lambda::Programs(*ps),
                        forall|c: int| 0 <= c < nodes.len() ==> term_of(nodes, c) == #[trigger] term_of(s, c),
                        ts == Seq::new(ps@.len(), |k: int| term_of(s, ps@[k] as int)),
                        sum == costs_sum(ts.take(k as int)),
                    decreases ps@.len() - k,
                {
                    assert(enode.children()[k as int] < nodes.len());
                    assert(ts.take(k + 1).drop_last() =~= ts.take(k as int));
                    sum = sum.wrapping_add(self.data[ps[k]].inventionless_cost);
                    k = k + 1;
                }
                assert(ts.take(ps@.len() as int) =~= ts);
                proof {
                    if let Term::Programs(tt) = node_term(nodes, *enode) {
                        assert(tt =~= ts);
                    }
                }
                cost = sum;
            },
        }
        Data { upward_refs: refs, inventionless_cost: cost }
    }

    /// Adds a node, or finds the node already stored that is the same.
    pub fn add(&mut self, enode: Lambda) -> (id: Id)
        requires
            old(self).wf(),
            children_in(old(self).nodes(), enode),
            programs_closed(old(self).nodes(), enode),
        ensures
            final(self).wf(),
            id < final(self).nodes().len(),
            final(self).nodes()[id as int].same(enode),
            final(self).term(id as int) == node_term(old(self).nodes(), enode),
            (exists|i: int| 0 <= i < old(self).nodes().len() && (#[trigger] old(self).nodes()[i]).same(enode))
                ==> final(self).nodes() == old(self).nodes(),
            (forall|i: int| 0 <= i < old(self).nodes().len() ==> !(#[trigger] old(self).nodes()[i]).same(enode))
                ==> final(self).nodes() == old(self).nodes().push(enode) && id == old(self).nodes().len(),
    {
        match self.lookup(&enode) {
            Some(i) => {
                proof {
                    lemma_same_node_term(self.nodes@, i as int, enode);
                }
                i
            },
            None => {
                let d = self.make(&enode);
                let ghost old_nodes = self.nodes@;
                let id = self.nodes.len();
                self.nodes.push(enode);
                self.data.push(d);
                proof {
                    lemma_children_before_push(old_nodes, enode);
                    assert forall|c: int| 0 <= c < old_nodes.len() implies term_of(old_nodes, c) == term_of(self.nodes@, c) by {
                        lemma_term_prefix(old_nodes, self.nodes@, c);
                    }
                    assert forall|i: int| 0 <= i < self.nodes@.len() implies {
                        &&& (#[trigger] self.data@[i]).upward_refs@ == upward_refs(term_of(self.nodes@, i))
                        &&& self.data@[i].inventionless_cost == term_cost(term_of(self.nodes@, i))
                    } by {
                        if i < old_nodes.len() {
                            assert(self.data@[i] == old(self).data@[i]);
                        }
                    }
                    assert forall|i: int, j: int| 0 <= i < self.nodes@.len() && 0 <= j < self.nodes@.len() && i != j
                        implies !(#[trigger] self.nodes@[i]).same(#[trigger] self.nodes@[j]) by {
                        if i < old_nodes.len() && j < old_nodes.len() {
                            assert(self.nodes@[i] == old_nodes[i]);
                            assert(self.nodes@[j] == old_nodes[j]);
                        } else if i < old_nodes.len() {
                            assert(self.nodes@[i] == old_nodes[i]);
                        } else {
                            assert(self.nodes@[j] == old_nodes[j]);
                            assert(!old_nodes[j].same(enode));
                            same_symmetric(old_nodes[j], enode);
                        }
                    }
                }
                id
            },
        }
    }
}

/// Adding a node that is already stored gives back the id it is stored
/// under and leaves the graph as it was.
pub proof fn law_add_again(g1: ProgramGraph, g2: ProgramGraph, enode: Lambda, id1: Id, id2: Id)
    requires
        g1.wf(),
        id1 < g1.nodes().len(),
        g1.nodes()[id1 as int].same(enode),
        id2 < g2.nodes().len(),
        g2.nodes()[id2 as int].same(enode),
        (exists|i: int| 0 <= i < g1.nodes().len() && (#[trigger] g1.nodes()[i]).same(enode)) ==> g2.nodes() == g1.nodes(),
    ensures
        g2.nodes() == g1.nodes(),
        id2 == id1,
{
    assert(g1.nodes()[id1 as int].same(enode));
    g1.lemma_wf();
    if id1 != id2 {
        let a = g1.nodes()[id1 as int];
        let b = g1.nodes()[id2 as int];
        assert(a.same(b)) by {
            match (a, b, enode) {
                (Lambda::Programs(pa), Lambda::Programs(pb), Lambda::Programs(pe)) => {
                    assert(pa@ == pe@ && pb@ == pe@);
                },
                _ => {},
            }
        }
        assert(!a.same(b));
    }
}

/// Hash-consing: two nodes of a well-formed graph that denote the same tree
/// are the same node.
pub proof fn lemma_term_injective(g: ProgramGraph, i: int, j: int)
    requires
        g.wf(),
        0 <= i < g.nodes().len(),
        0 <= j < g.nodes().len(),
        g.term(i) == g.term(j),
    ensures
        i == j,
    decreases i + j,
{
    g.lemma_wf();
    let nodes = g.nodes();
    if i != j {
        match (nodes[i], nodes[j]) {
            (Lambda::App(f1, x1), Lambda::App(f2, x2)) => {
                assert(nodes[i].children()[0] < i && nodes[i].children()[1] < i);
                assert(nodes[j].children()[0] < j && nodes[j].children()[1] < j);
                lemma_term_injective(g, f1 as int, f2 as int);
                lemma_term_injective(g, x1 as int, x2 as int);
                assert(nodes[i].same(nodes[j]));
            },
            (Lambda::Lam(b1), Lambda::Lam(b2)) => {
                assert(nodes[i].children()[0] < i);
                assert(nodes[j].children()[0] < j);
                lemma_term_injective(g, b1 as int, b2 as int);
                assert(nodes[i].same(nodes[j]));
            },
            (Lambda::Programs(p1), Lambda::Programs(p2)) => {
                if let (Term::Programs(t1), Term::Programs(t2)) = (g.term(i), g.term(j)) {
                    assert(t1.len() == t2.len());
                    assert forall|k: int| 0 <= k < p1@.len() implies p1@[k] == p2@[k] by {
                        assert(nodes[i].children()[k] < i);
                        assert(nodes[j].children()[k] < j);
                        assert(t1[k] == t2[k]);
                        lemma_term_injective(g, p1@[k] as int, p2@[k] as int);
                    }
                    assert(p1@ =~= p2@);
                }
                assert(nodes[i].same(nodes[j]));
            },
            _ => {
                assert(nodes[i].same(nodes[j]));
            },
        }
    }
}

/// `same` is symmetric.
pub proof fn same_symmetric(a: Lambda, b: Lambda)
    ensures
        a.same(b) == b.same(a),
{
}

/// Adds every element of `src` to `dst`.
pub fn union_into(dst: &mut HashSet<i32>, src: &HashSet<i32>)
    ensures
        final(dst)@ == old(dst)@.union(src@),
{
    broadcast use vstd::std_specs::hash::axiom_spec_hash_keys_iter;

    let ghost d0 = dst@;
    let ghost mut done: Set<i32> = Set::empty();
    for r in it: src.iter()
        invariant
            it.seq().unref().to_set() == src@,
            done == it.seq().take(it.index()).unref().to_set(),
            dst@ == d0.union(done),
            it.index() == it.seq().len() ==> done == src@,
    {
        proof {
            let k = it.index();
            assert(it.seq().take(k + 1).unref() =~= it.seq().take(k).unref().push(*r));
            it.seq().take(k).unref().lemma_push_to_set_commute(*r);
            done = done.insert(*r);
            assert(it.seq().take(it.seq().len() as int) =~= it.seq());
        }
        dst.insert(*r);
    }
    assert(done =~= src@);
}

/// Adds to `dst` each element of `src` seen from one binder further out:
/// `x - 1`, kept when not negative.
pub fn lift_refs_into(dst: &mut HashSet<i32>, src: &HashSet<i32>)
    requires
        old(dst)@ == Set::<i32>::empty(),
    ensures
        final(dst)@ == Set::new(|y: i32| y >= 0 && exists|x: i32| #[trigger] src@.contains(x) && outer_index(x) == y),
{
    broadcast use vstd::std_specs::hash::axiom_spec_hash_keys_iter;

    let ghost target = Set::new(|y: i32| y >= 0 && exists|x: i32| #[trigger] src@.contains(x) && outer_index(x) == y);
    let ghost mut done: Set<i32> = Set::empty();
    for r in it: src.iter()
        invariant
            it.seq().unref().to_set() == src@,
            done == it.seq().take(it.index()).unref().to_set(),
            dst@ == Set::new(|y: i32| y >= 0 && exists|x: i32| #[trigger] done.contains(x) && outer_index(x) == y),
            it.index() == it.seq().len() ==> done == src@,
    {
        let ghost before = dst@;
        let ghost done0 = done;
        proof {
            let k = it.index();
            assert(it.seq().take(k + 1).unref() =~= it.seq().take(k).unref().push(*r));
            it.seq().take(k).unref().lemma_push_to_set_commute(*r);
            done = done.insert(*r);
            assert(it.seq().take(it.seq().len() as int) =~= it.seq());
        }
        let y = r.wrapping_sub(1);
        if y >= 0 {
            dst.insert(y);
        }
        proof {
            let want = Set::new(|y: i32| y >= 0 && exists|x: i32| #[trigger] done.contains(x) && outer_index(x) == y);
            assert forall|z: i32| want.contains(z) implies dst@.contains(z) by {
                let x = choose|x: i32| #[trigger] done.contains(x) && outer_index(x) == z;
                if x != *r {
                    assert(done0.contains(x));
                }
            }
            assert forall|z: i32| dst@.contains(z) implies want.contains(z) by {
                if z != y || !(y >= 0) {
                    assert(before.contains(z));
                    let x = choose|x: i32| #[trigger] done0.contains(x) && outer_index(x) == z;
                    assert(done.contains(x));
                } else {
                    assert(done.contains(*r));
                }
            }
            assert(dst@ =~= want);
        }
    }
    assert(done =~= src@);
}


/// `m` is `n` with each child `c` replaced by `ids[c]`.
pub open spec fn relabeled(n: Lambda, m: Lambda, ids: Seq<Id>) -> bool {
    match (n, m) {
        (Lambda::Var(i), Lambda::Var(j)) => i == j,
        (Lambda::Prim(p), Lambda::Prim(q)) => p == q,
        (Lambda::App(f, x), Lambda::App(g, y)) => g == ids[f as int] && y == ids[x as int],
        (Lambda::Lam(b), Lambda::Lam(c)) => c == ids[b as int],
        (Lambda::Programs(ps), Lambda::Programs(qs)) => qs@.len() == ps@.len() && forall|k: int|
            0 <= k < ps@.len() ==> #[trigger] qs@[k] == ids[ps@[k] as int],
        _ => false,
    }
}

/// `n` with each child `c` replaced by `ids[c]`.
fn relabel(n: &Lambda, ids: &Vec<Id>) -> (m: Lambda)
    requires
        forall|j: int| 0 <= j < n.children().len() ==> #[trigger] n.children()[j] < ids@.len(),
    ensures
        relabeled(*n, m, ids@),
        m.children().len() == n.children().len(),
        forall|j: int| 0 <= j < n.children().len() ==> #[trigger] m.children()[j] == ids@[n.children()[j] as int],
{
    match n {
        Lambda::Var(i) => Lambda::Var(*i),
        Lambda::Prim(p) => Lambda::Prim(*p),
        Lambda::App(f, x) => {
            assert(n.children()[0] == *f && n.children()[1] == *x);
            Lambda::App(ids[*f], ids[*x])
        },
        Lambda::Lam(b) => {
            assert(n.children()[0] == *b);
            Lambda::Lam(ids[*b])
        },
        Lambda::Programs(ps) => {
            assert(n.children() == ps@);
            let mut qs: Vec<Id> = Vec::new();
            let mut k: usize = 0;
            while k < ps.len()
                invariant
                    k <= ps@.len(),
                    qs@.len() == k,
                    forall|j: int| 0 <= j < ps@.len() ==> #[trigger] ps@[j] < ids@.len(),
                    forall|j: int| 0 <= j < k ==> #[trigger] qs@[j] == ids@[ps@[j] as int],
                decreases ps@.len() - k,
            {
                qs.push(ids[ps[k]]);
                k = k + 1;
            }
            Lambda::Programs(qs)
        },
    }
}

/// A relabeled node denotes the tree of the node it relabels, where each
/// relabeled child denotes the tree of the child it replaces.
proof fn lemma_relabeled_term(es: Seq<Lambda>, i: int, gs: Seq<Lambda>, m: Lambda, ids: Seq<Id>)
    requires
        children_before(es),
        children_before(gs),
        0 <= i < es.len(),
        relabeled(es[i], m, ids),
        children_in(gs, m),
        forall|c: int| 0 <= c < i ==> ids[c] < gs.len() && #[trigger] term_of(gs, ids[c] as int) == term_of(es, c),
    ensures
        node_term(gs, m) == term_of(es, i),
{
    let s = gs.push(m);
    lemma_children_before_push(gs, m);
    let n = es[i];
    match n {
        Lambda::App(f, x) => {
            assert(n.children()[0] < i && n.children()[1] < i);
            assert(m.children()[0] < gs.len() && m.children()[1] < gs.len());
            lemma_term_prefix(gs, s, ids[f as int] as int);
            lemma_term_prefix(gs, s, ids[x as int] as int);
        },
        Lambda::Lam(b) => {
            assert(n.children()[0] < i);
            assert(m.children()[0] < gs.len());
            lemma_term_prefix(gs, s, ids[b as int] as int);
        },
        Lambda::Programs(ps) => {
            if let Lambda::Programs(qs) = m {
                assert forall|k: int| 0 <= k < ps@.len() implies term_of(s, qs@[k] as int) == term_of(es, ps@[k] as int) by {
                    assert(n.children()[k] < i);
                    assert(m.children()[k] < gs.len());
                    lemma_term_prefix(gs, s, qs@[k] as int);
                }
                if let Term::Programs(ta) = term_of(s, gs.len() as int) {
                    if let Term::Programs(tb) = term_of(es, i) {
                        assert(ta =~= tb);
                    }
                }
            }
        },
        _ => {},
    }
}

impl ProgramGraph {
    /// Whether every node of `qs` denotes a tree without free variables.
    fn all_closed(&self, qs: &Vec<Id>) -> (b: bool)
        requires
            self.wf(),
            forall|j: int| 0 <= j < qs@.len() ==> #[trigger] qs@[j] < self.nodes().len(),
        ensures
            b <==> forall|j: int| 0 <= j < qs@.len() ==> upward_refs(#[trigger] self.term(qs@[j] as int)).is_empty(),
    {
        let mut k: usize = 0;
        while k < qs.len()
            invariant
                self.wf(),
                k <= qs@.len(),
                forall|j: int| 0 <= j < qs@.len() ==> #[trigger] qs@[j] < self.nodes().len(),
                forall|j: int| 0 <= j < k ==> upward_refs(#[trigger] self.term(qs@[j] as int)).is_empty(),
            decreases qs@.len() - k,
        {
            if !self.upward_refs(qs[k]).is_empty() {
                return false;
            }
            k = k + 1;
        }
        true
    }

    /// Adds the nodes of the flat expression `e` in order, each child
    /// replaced by the node it was added as, and returns the node of `e`'s
    /// root. `None`, where a corpus node of `e` holds a program with free
    /// variables.
    pub fn add_expr(&mut self, e: &Expr) -> (r: Option<Id>)
        requires
            old(self).wf(),
            e.wf(),
            e.nodes@.len() > 0,
        ensures
            final(self).wf(),
            old(self).nodes().len() <= final(self).nodes().len(),
            forall|i: int| 0 <= i < old(self).nodes().len() ==> #[trigger] final(self).nodes()[i] == old(self).nodes()[i],
            r is None <==> exists|i: int| 0 <= i < e.nodes@.len() && !programs_closed(e.nodes@, #[trigger] e.nodes@[i]),
            r matches Some(id) ==> id < final(self).nodes().len() && final(self).term(id as int) == e.root_term(),
    {
        let ghost g0 = self.nodes();
        let mut ids: Vec<Id> = Vec::new();
        let mut i: usize = 0;
        while i < e.nodes.len()
            invariant
                self.wf(),
                e.wf(),
                i <= e.nodes@.len(),
                ids@.len() == i,
                g0 == old(self).nodes(),
                g0.len() <= self.nodes().len(),
                forall|j: int| 0 <= j < g0.len() ==> #[trigger] self.nodes()[j] == g0[j],
                forall|c: int| 0 <= c < i ==> ids@[c] < self.nodes().len() && #[trigger] self.term(ids@[c] as int) == e.term(c),
                forall|c: int| 0 <= c < i ==> programs_closed(e.nodes@, #[trigger] e.nodes@[c]),
            decreases e.nodes@.len() - i,
        {
            let n = &e.nodes[i];
            proof {
                assert forall|j: int| 0 <= j < n.children().len() implies #[trigger] n.children()[j] < ids@.len() by {
                    assert(e.nodes@[i as int].children()[j] < i);
                }
            }
            let m = relabel(n, &ids);
            proof {
                assert forall|j: int| 0 <= j < m.children().len() implies #[trigger] m.children()[j] < self.nodes().len() by {
                    let c = n.children()[j];
                    assert(c < i);
                    assert(m.children()[j] == ids@[c as int]);
                    assert(self.term(ids@[c as int] as int) == e.term(c as int));
                }
            }
            if let Lambda::Programs(qs) = &m {
                assert(m.children() == qs@);
                let closed = self.all_closed(qs);
                proof {
                    assert(m.children() == qs@);
                    assert forall|j: int| 0 <= j < n.children().len() implies
                        #[trigger] e.term(n.children()[j] as int) == self.term(qs@[j] as int) by {
                        assert(n.children()[j] < i);
                        assert(m.children()[j] == ids@[n.children()[j] as int]);
                    }
                }
                if !closed {
                    proof {
                        let j = choose|j: int| 0 <= j < qs@.len() && !upward_refs(#[trigger] self.term(qs@[j] as int)).is_empty();
                        assert(e.term(n.children()[j] as int) == self.term(qs@[j] as int));
                        assert(!programs_closed(e.nodes@, e.nodes@[i as int]));
                    }
                    return None;
                }
                proof {
                    assert forall|j: int| 0 <= j < n.children().len() implies upward_refs(
                        #[trigger] term_of(e.nodes@, n.children()[j] as int),
                    ).is_empty() by {
                        assert(e.term(n.children()[j] as int) == self.term(qs@[j] as int));
                    }
                }
            }
            proof {
                assert(programs_closed(e.nodes@, e.nodes@[i as int]));
                assert forall|c: int| 0 <= c < i implies ids@[c] < self.nodes().len()
                    && #[trigger] term_of(self.nodes(), ids@[c] as int) == term_of(e.nodes@, c) by {
                    assert(self.term(ids@[c] as int) == e.term(c));
                }
                lemma_relabeled_term(e.nodes@, i as int, self.nodes(), m, ids@);
            }
            let ghost before = self.nodes();
            let ghost ids0 = ids@;
            let id = self.add(m);
            proof {
                self.lemma_wf();
                assert(forall|j: int| 0 <= j < before.len() ==> #[trigger] self.nodes()[j] == before[j]);
                assert forall|c: int| 0 <= c < before.len() implies #[trigger] term_of(self.nodes(), c) == term_of(before, c) by {
                    lemma_term_prefix(before, self.nodes(), c);
                }
            }
            ids.push(id);
            proof {
                assert forall|c: int| 0 <= c < i + 1 implies ids@[c] < self.nodes().len()
                    && #[trigger] self.term(ids@[c] as int) == e.term(c) by {
                    if c < i {
                        assert(ids@[c] == ids0[c]);
                        assert(term_of(self.nodes(), ids0[c] as int) == term_of(before, ids0[c] as int));
                    }
                }
            }
            i = i + 1;
        }
        let last = ids[ids.len() - 1];
        Some(last)
    }
}

} // verus!
