//! Traversal of a stored term: the nodes it reaches, children first, and
//! extraction of a stored term as a flat expression.

use vstd::prelude::*;
use crate::expr::{wrap_lams, Expr};
use crate::graph::ProgramGraph;
use crate::invention::Invention;
use crate::lambda::{children_before, term_of, Id, Lambda, Term};

verus! {

/// `c` is a child of node `n`.
pub open spec fn child_of(nodes: Seq<Lambda>, n: int, c: int) -> bool {
    exists|j: int| 0 <= j < nodes[n].children().len() && #[trigger] nodes[n].children()[j] as int == c
}

/// `p` is a path down the graph: each step goes from a node to one of its
/// children.
pub open spec fn is_path(nodes: Seq<Lambda>, p: Seq<int>) -> bool {
    &&& p.len() > 0
    &&& forall|i: int| 0 <= i < p.len() ==> 0 <= #[trigger] p[i] < nodes.len()
    &&& forall|i: int| 0 <= i < p.len() - 1 ==> child_of(nodes, #[trigger] p[i], p[i + 1])
}

/// The nodes reachable from `id`, itself included.
pub open spec fn reach(nodes: Seq<Lambda>, id: int) -> Set<int> {
    Set::new(|x: int| exists|p: Seq<int>| #[trigger] is_path(nodes, p) && p[0] == id && p.last() == x)
}

/// Every node reaches itself.
pub proof fn lemma_reach_self(nodes: Seq<Lambda>, id: int)
    requires
        0 <= id < nodes.len(),
    ensures
        reach(nodes, id).contains(id),
{
    if 0 <= id < nodes.len() {
        let p = seq![id];
        assert(is_path(nodes, p));
    }
}

/// What a child reaches, its parent reaches.
pub proof fn lemma_reach_child(nodes: Seq<Lambda>, id: int, k: int, x: int)
    requires
        0 <= id < nodes.len(),
        children_before(nodes),
        0 <= k < nodes[id].children().len(),
        reach(nodes, nodes[id].children()[k] as int).contains(x),
    ensures
        reach(nodes, id).contains(x),
{
    let c = nodes[id].children()[k];
    let p = choose|p: Seq<int>| #[trigger] is_path(nodes, p) && p[0] == c as int && p.last() == x;
    let q = seq![id] + p;
    assert(child_of(nodes, id, c as int));
    assert(0 <= p[0] < nodes.len());
    assert forall|i: int| 0 <= i < q.len() implies 0 <= #[trigger] q[i] < nodes.len() by {
        if i > 0 {
            assert(q[i] == p[i - 1]);
        }
    }
    assert forall|i: int| 0 <= i < q.len() - 1 implies child_of(nodes, #[trigger] q[i], q[i + 1]) by {
        if i > 0 {
            assert(q[i] == p[i - 1]);
            assert(q[i + 1] == p[i]);
        }
    }
    assert(is_path(nodes, q));
    assert(q.last() == x);
}

/// What a node reaches is itself or what one of its children reaches.
pub proof fn lemma_reach_split(nodes: Seq<Lambda>, id: int, x: int)
    requires
        reach(nodes, id).contains(x),
        x != id,
    ensures
        0 <= id < nodes.len(),
        exists|k: int| 0 <= k < nodes[id].children().len() && #[trigger] reach(nodes, nodes[id].children()[k] as int).contains(x),
{
    let p = choose|p: Seq<int>| #[trigger] is_path(nodes, p) && p[0] == id && p.last() == x;
    assert(p.len() > 1);
    assert(0 <= p[0] < nodes.len());
    let c = p[1];
    assert(child_of(nodes, id, c));
    let k = choose|k: int| 0 <= k < nodes[id].children().len() && #[trigger] nodes[id].children()[k] as int == c;
    let q = p.drop_first();
    assert forall|i: int| 0 <= i < q.len() implies 0 <= #[trigger] q[i] < nodes.len() by {
        assert(q[i] == p[i + 1]);
    }
    assert forall|i: int| 0 <= i < q.len() - 1 implies child_of(nodes, #[trigger] q[i], q[i + 1]) by {
        assert(q[i] == p[i + 1]);
        assert(q[i + 1] == p[i + 2]);
    }
    assert(is_path(nodes, q));
    assert(0 <= c < nodes.len());
    assert(nodes[id].children()[k] as int == c);
    assert(q[0] == c);
    assert(reach(nodes, nodes[id].children()[k] as int).contains(x));
}

/// Each element of `v` is a node, and each node's children come before it.
pub open spec fn ordered(nodes: Seq<Lambda>, v: Seq<Id>) -> bool {
    forall|p: int| 0 <= p < v.len() ==> {
        &&& #[trigger] v[p] < nodes.len()
        &&& forall|k: int| 0 <= k < nodes[v[p] as int].children().len()
            ==> #[trigger] v.take(p).contains(nodes[v[p] as int].children()[k])
    }
}

/// The ids in `v`, as integers.
pub open spec fn id_set(v: Seq<Id>) -> Set<int> {
    Set::new(|x: int| exists|j: int| 0 <= j < v.len() && v[j] as int == x)
}

/// Reachable nodes are never above the start.
pub proof fn lemma_reach_below(nodes: Seq<Lambda>, id: int, x: int)
    requires
        children_before(nodes),
        0 <= id < nodes.len(),
        reach(nodes, id).contains(x),
    ensures
        0 <= x <= id,
    decreases id,
{
    if x != id {
        lemma_reach_split(nodes, id, x);
        let k = choose|k: int| 0 <= k < nodes[id].children().len() && #[trigger] reach(nodes, nodes[id].children()[k] as int).contains(x);
        assert(nodes[id].children()[k] < id);
        lemma_reach_below(nodes, nodes[id].children()[k] as int, x);
    }
}

/// Whether `v` holds `id`.
fn contains_id(v: &Vec<Id>, id: Id) -> (r: bool)
    ensures
        r == v@.contains(id),
{
    let mut i: usize = 0;
    while i < v.len()
        invariant
            i <= v@.len(),
            forall|j: int| 0 <= j < i ==> v@[j] != id,
        decreases v@.len() - i,
    {
        if v[i] == id {
            assert(v@[i as int] == id);
            return true;
        }
        i = i + 1;
    }
    false
}

/// The list `acc` extended depth first from `root`: the children left to
/// right, then `root` itself unless it is already listed.
pub open spec fn dfs_order(nodes: Seq<Lambda>, root: int, acc: Seq<Id>) -> Seq<Id>
    decreases root, 1int, 0int,
{
    if 0 <= root < nodes.len() {
        let after = dfs_children(nodes, root, nodes[root].children().len() as int, acc);
        if after.contains(root as Id) {
            after
        } else {
            after.push(root as Id)
        }
    } else {
        acc
    }
}

/// The list `acc` extended depth first from the first `k` children of
/// `root`, in order.
pub open spec fn dfs_children(nodes: Seq<Lambda>, root: int, k: int, acc: Seq<Id>) -> Seq<Id>
    decreases root, 0int, k,
{
    if k <= 0 || !(0 <= root < nodes.len()) || k > nodes[root].children().len() {
        acc
    } else {
        let a = dfs_children(nodes, root, k - 1, acc);
        let c = nodes[root].children()[k - 1];
        if c < root {
            dfs_order(nodes, c as int, a)
        } else {
            a
        }
    }
}

fn toplogical_ordering_rec(root: Id, egraph: &ProgramGraph, vec: &mut Vec<Id>)
    requires
        egraph.wf(),
        root < egraph.nodes().len(),
        ordered(egraph.nodes(), old(vec)@),
        old(vec)@.no_duplicates(),
    ensures
        ordered(egraph.nodes(), final(vec)@),
        final(vec)@.no_duplicates(),
        id_set(final(vec)@) == id_set(old(vec)@).union(reach(egraph.nodes(), root as int)),
        old(vec)@.len() <= final(vec)@.len(),
        forall|j: int| 0 <= j < old(vec)@.len() ==> #[trigger] final(vec)@[j] == old(vec)@[j],
        final(vec)@ == dfs_order(egraph.nodes(), root as int, old(vec)@),
    decreases root,
{
    let ghost nodes = egraph.nodes();
    let ghost v0 = vec@;
    proof {
        egraph.lemma_wf();
    }
    let children = egraph.node(root).child_ids();
    let mut k: usize = 0;
    while k < children.len()
        invariant
            egraph.wf(),
            nodes == egraph.nodes(),
            children_before(nodes),
            root < nodes.len(),
            children@ == nodes[root as int].children(),
            k <= children@.len(),
            ordered(nodes, vec@),
            vec@.no_duplicates(),
            vec@ == dfs_children(nodes, root as int, k as int, v0),
            v0.len() <= vec@.len(),
            forall|j: int| 0 <= j < v0.len() ==> #[trigger] vec@[j] == v0[j],
            id_set(vec@) == id_set(v0).union(
                Set::new(|x: int| exists|q: int| 0 <= q < k && #[trigger] reach(nodes, nodes[root as int].children()[q] as int).contains(x)),
            ),
        decreases children@.len() - k,
    {
        let ghost before = vec@;
        assert(nodes[root as int].children()[k as int] < root);
        toplogical_ordering_rec(children[k], egraph, vec);
        proof {
            assert(id_set(vec@) =~= id_set(v0).union(
                Set::new(|x: int| exists|q: int| 0 <= q < k + 1 && #[trigger] reach(nodes, nodes[root as int].children()[q] as int).contains(x)),
            )) by {
                assert forall|x: int| #[trigger] id_set(vec@).contains(x) implies id_set(v0).union(
                    Set::new(|x: int| exists|q: int| 0 <= q < k + 1 && #[trigger] reach(nodes, nodes[root as int].children()[q] as int).contains(x)),
                ).contains(x) by {
                    if id_set(before).contains(x) {
                    } else {
                        assert(reach(nodes, nodes[root as int].children()[k as int] as int).contains(x));
                    }
                }
            }
        }
        k = k + 1;
    }
    let present = contains_id(vec, root);
    let ghost v1 = vec@;
    proof {
        assert forall|x: int| #[trigger] reach(nodes, root as int).contains(x) <==> (x == root || exists|q: int| 0 <= q < children@.len() && #[trigger] reach(nodes, nodes[root as int].children()[q] as int).contains(x)) by {
            if x == root {
                lemma_reach_self(nodes, root as int);
            } else if reach(nodes, root as int).contains(x) {
                lemma_reach_split(nodes, root as int, x);
            } else {
                if exists|q: int| 0 <= q < children@.len() && #[trigger] reach(nodes, nodes[root as int].children()[q] as int).contains(x) {
                    let q = choose|q: int| 0 <= q < children@.len() && #[trigger] reach(nodes, nodes[root as int].children()[q] as int).contains(x);
                    lemma_reach_child(nodes, root as int, q, x);
                }
            }
        }
    }
    if !present {
        vec.push(root);
        proof {
            let p = v1.len() as int;
            assert(vec@.take(p) =~= v1);
            assert forall|kk: int| 0 <= kk < nodes[root as int].children().len() implies #[trigger] vec@.take(p).contains(nodes[root as int].children()[kk]) by {
                let c = nodes[root as int].children()[kk];
                lemma_reach_self(nodes, c as int);
                assert(id_set(v1).contains(c as int));
                let j = choose|j: int| 0 <= j < v1.len() && v1[j] as int == c as int;
                assert(v1[j] == c);
            }
            assert forall|pp: int| 0 <= pp < vec@.len() implies {
                &&& #[trigger] vec@[pp] < nodes.len()
                &&& forall|kk: int| 0 <= kk < nodes[vec@[pp] as int].children().len()
                    ==> #[trigger] vec@.take(pp).contains(nodes[vec@[pp] as int].children()[kk])
            } by {
                if pp < p {
                    assert(vec@[pp] == v1[pp]);
                    assert(vec@.take(pp) =~= v1.take(pp));
                }
            }
            assert(id_set(vec@) =~= id_set(v1).insert(root as int)) by {
                assert(vec@[p] == root);
                assert forall|x: int| #[trigger] id_set(vec@).contains(x) implies id_set(v1).insert(root as int).contains(x) by {
                    let j = choose|j: int| 0 <= j < vec@.len() && vec@[j] as int == x;
                    if j < p {
                        assert(v1[j] == vec@[j]);
                    }
                }
                assert forall|x: int| #[trigger] id_set(v1).contains(x) implies id_set(vec@).contains(x) by {
                    let j = choose|j: int| 0 <= j < v1.len() && v1[j] as int == x;
                    assert(vec@[j] == v1[j]);
                }
            }
            assert(id_set(vec@) =~= id_set(v0).union(reach(nodes, root as int)));
        }
    } else {
        proof {
            let j = choose|j: int| 0 <= j < v1.len() && v1[j] == root;
            assert(id_set(v1).contains(root as int));
            assert(id_set(vec@) =~= id_set(v0).union(reach(nodes, root as int)));
        }
    }
}

/// The nodes reachable from `root`, each once, children before parents,
/// ending with `root`.
pub fn toplogical_ordering(root: Id, egraph: &ProgramGraph) -> (order: Vec<Id>)
    requires
        egraph.wf(),
        root < egraph.nodes().len(),
    ensures
        ordered(egraph.nodes(), order@),
        order@.no_duplicates(),
        id_set(order@) == reach(egraph.nodes(), root as int),
        order@.len() > 0,
        order@.last() == root,
        order@ == dfs_order(egraph.nodes(), root as int, Seq::empty()),
{
    let mut vec: Vec<Id> = Vec::new();
    proof {
        assert(id_set(vec@) =~= Set::<int>::empty());
    }
    toplogical_ordering_rec(root, egraph, &mut vec);
    proof {
        egraph.lemma_wf();
        assert(id_set(vec@) =~= reach(egraph.nodes(), root as int));
        lemma_reach_self(egraph.nodes(), root as int);
        assert(vec@.len() > 0);
        let last = vec@.last();
        assert(id_set(vec@).contains(last as int));
        lemma_reach_below(egraph.nodes(), root as int, last as int);
        if last != root {
            // the last node's children come before it, and so does everything
            // it reaches; the root, which reaches it, would then come earlier.
            assert(id_set(vec@).contains(root as int));
            let j = choose|j: int| 0 <= j < vec@.len() && vec@[j] as int == root as int;
            lemma_order_root_last(egraph.nodes(), vec@, root as int, j);
        }
    }
    vec
}

/// In an ordering of the nodes reachable from `root`, nothing comes after
/// `root`.
pub proof fn lemma_order_root_last(nodes: Seq<Lambda>, v: Seq<Id>, root: int, j: int)
    requires
        children_before(nodes),
        0 <= root < nodes.len(),
        ordered(nodes, v),
        v.no_duplicates(),
        id_set(v) == reach(nodes, root),
        0 <= j < v.len(),
        v[j] == root,
    ensures
        j == v.len() - 1,
{
    if j < v.len() - 1 {
        let last = v[v.len() - 1];
        assert(id_set(v).contains(last as int));
        lemma_ordered_reach_before(nodes, v, root, j, last as int);
        let i = choose|i: int| 0 <= i <= j && v[i] as int == last as int;
        assert(v[i] == v[v.len() - 1]);
    }
}

/// In an ordering, whatever the node at position `j` reaches sits at or
/// before `j`.
pub proof fn lemma_ordered_reach_before(nodes: Seq<Lambda>, v: Seq<Id>, root: int, j: int, x: int)
    requires
        children_before(nodes),
        ordered(nodes, v),
        0 <= j < v.len(),
        v[j] as int == root,
        0 <= root < nodes.len(),
        reach(nodes, root).contains(x),
    ensures
        exists|i: int| 0 <= i <= j && v[i] as int == x,
    decreases root,
{
    if x == root {
        assert(v[j] as int == x);
    } else {
        lemma_reach_split(nodes, root, x);
        let k = choose|k: int| 0 <= k < nodes[root].children().len() && #[trigger] reach(nodes, nodes[root].children()[k] as int).contains(x);
        let c = nodes[root].children()[k];
        assert(c < root);
        assert(v.take(j).contains(c));
        let jc = choose|jc: int| 0 <= jc < v.take(j).len() && v.take(j)[jc] == c;
        assert(v[jc] == c);
        lemma_ordered_reach_before(nodes, v, c as int, jc, x);
    }
}

/// The position of `id` among the first `n` elements of `v`.
fn position_of(v: &Vec<Id>, n: usize, id: Id) -> (p: usize)
    requires
        n <= v@.len(),
        v@.take(n as int).contains(id),
    ensures
        p < n,
        v@[p as int] == id,
{
    let mut i: usize = 0;
    while i < n
        invariant
            i <= n,
            n <= v@.len(),
            v@.take(n as int).contains(id),
            forall|j: int| 0 <= j < i ==> v@[j] != id,
        decreases n - i,
    {
        if v[i] == id {
            return i;
        }
        i = i + 1;
    }
    proof {
        let j = choose|j: int| 0 <= j < v@.take(n as int).len() && v@.take(n as int)[j] == id;
        assert(v@[j] == id);
    }
    0
}

/// The flat expression whose positions hold, in order, the stored nodes
/// listed in `order`.
fn build_expr(order: &Vec<Id>, egraph: &ProgramGraph) -> (expr: Expr)
    requires
        egraph.wf(),
        ordered(egraph.nodes(), order@),
        order@.no_duplicates(),
    ensures
        expr.wf(),
        expr.nodes@.len() == order@.len(),
        forall|q: int| 0 <= q < order@.len() ==> #[trigger] expr.term(q) == egraph.term(order@[q] as int),
{
    let ghost nodes = egraph.nodes();
    proof {
        egraph.lemma_wf();
    }
    let mut expr = Expr::new();
    let mut p: usize = 0;
    while p < order.len()
        invariant
            egraph.wf(),
            nodes == egraph.nodes(),
            children_before(nodes),
            ordered(nodes, order@),
            order@.no_duplicates(),
            p <= order@.len(),
            expr.wf(),
            expr.nodes@.len() == p,
            forall|q: int| 0 <= q < p ==> #[trigger] expr.term(q) == egraph.term(order@[q] as int),
        decreases order@.len() - p,
    {
        let id = order[p];
        let ghost ch = nodes[id as int].children();
        let ghost e0 = expr;
        proof {
            assert(order@.take(p as int).len() == p);
            assert(nodes[id as int] == egraph.nodes()[id as int]);
        }
        match egraph.node(id) {
            Lambda::Var(i) => {
                expr.add(Lambda::Var(*i));
            },
            Lambda::Prim(s) => {
                expr.add(Lambda::Prim(*s));
            },
            Lambda::App(f, x) => {
                assert(order@.take(p as int).contains(ch[0]));
                assert(order@.take(p as int).contains(ch[1]));
                let pf = position_of(&order, p, *f);
                let px = position_of(&order, p, *x);
                expr.add(Lambda::App(pf, px));
                proof {
                    assert(expr.term(pf as int) == e0.term(pf as int));
                    assert(expr.term(px as int) == e0.term(px as int));
                    assert(e0.term(pf as int) == egraph.term(order@[pf as int] as int));
                    assert(e0.term(px as int) == egraph.term(order@[px as int] as int));
                    assert(expr.nodes@[p as int] == Lambda::App(pf, px));
                }
            },
            Lambda::Lam(b) => {
                assert(order@.take(p as int).contains(ch[0]));
                let pb = position_of(&order, p, *b);
                expr.add(Lambda::Lam(pb));
                proof {
                    assert(expr.term(pb as int) == e0.term(pb as int));
                    assert(e0.term(pb as int) == egraph.term(order@[pb as int] as int));
                    assert(expr.nodes@[p as int] == Lambda::Lam(pb));
                }
            },
            Lambda::Programs(ps) => {
                let mut qs: Vec<Id> = Vec::new();
                let mut k: usize = 0;
                while k < ps.len()
                    invariant
                        k <= ps@.len(),
                        p <= order@.len(),
                        ps@ == ch,
                        forall|kk: int| 0 <= kk < ch.len() ==> #[trigger] order@.take(p as int).contains(ch[kk]),
                        qs@.len() == k,
                        forall|kk: int| 0 <= kk < k ==> #[trigger] qs@[kk] < p && order@[qs@[kk] as int] == ps@[kk],
                    decreases ps@.len() - k,
                {
                    assert(order@.take(p as int).contains(ch[k as int]));
                    qs.push(position_of(&order, p, ps[k]));
                    k = k + 1;
                }
                let ghost qv = qs@;
                proof {
                    assert forall|j: int| 0 <= j < qv.len() implies #[trigger] qv[j] < e0.nodes@.len() by {
                    }
                }
                expr.add(Lambda::Programs(qs));
                proof {
                    if let (Term::Programs(t1), Term::Programs(t2)) = (expr.term(p as int), egraph.term(id as int)) {
                        assert forall|kk: int| 0 <= kk < t1.len() implies t1[kk] == t2[kk] by {
                            assert(qv[kk] < p);
                            assert(expr.term(qv[kk] as int) == e0.term(qv[kk] as int));
                            assert(e0.term(qv[kk] as int) == egraph.term(order@[qv[kk] as int] as int));
                            assert(nodes[id as int].children()[kk] < id);
                        }
                        assert(t1 =~= t2);
                    }
                }
            },
        }
        proof {
            assert forall|q: int| 0 <= q < p + 1 implies #[trigger] expr.term(q) == egraph.term(order@[q] as int) by {
                if q < p {
                    assert(expr.term(q) == e0.term(q));
                }
            }
        }
        p = p + 1;
    }
    expr
}

/// The stored term `eclass` as a flat expression, each reachable node once.
pub fn extract(eclass: Id, egraph: &ProgramGraph) -> (e: Expr)
    requires
        egraph.wf(),
        eclass < egraph.nodes().len(),
    ensures
        e.wf(),
        e.nodes@.len() > 0,
        e.root_term() == egraph.term(eclass as int),
{
    let order = toplogical_ordering(eclass, egraph);
    let expr = build_expr(&order, egraph);
    proof {
        assert(expr.term(order@.len() - 1) == egraph.term(order@.last() as int));
    }
    expr
}

/// The stored node `enode`'s children, extracted, under `enode` itself.
pub fn extract_enode(enode: &Lambda, egraph: &ProgramGraph) -> (e: Expr)
    requires
        egraph.wf(),
        crate::graph::children_in(egraph.nodes(), *enode),
    ensures
        e.wf(),
        e.nodes@.len() > 0,
        e.root_term() == crate::graph::node_term(egraph.nodes(), *enode),
{
    let ghost nodes = egraph.nodes();
    let ghost s = nodes.push(*enode);
    proof {
        egraph.lemma_wf();
        crate::graph::lemma_children_before_push(nodes, *enode);
        assert forall|c: int| 0 <= c < nodes.len() implies #[trigger] term_of(s, c) == term_of(nodes, c) by {
            crate::graph::lemma_term_prefix(nodes, s, c);
        }
    }
    let children = enode.child_ids();
    let mut order: Vec<Id> = Vec::new();
    let mut k: usize = 0;
    while k < children.len()
        invariant
            egraph.wf(),
            nodes == egraph.nodes(),
            children@ == enode.children(),
            crate::graph::children_in(nodes, *enode),
            k <= children@.len(),
            ordered(nodes, order@),
            order@.no_duplicates(),
            forall|j: int| 0 <= j < k ==> #[trigger] id_set(order@).contains(children@[j] as int),
        decreases children@.len() - k,
    {
        let ghost before = order@;
        assert(enode.children()[k as int] < nodes.len());
        toplogical_ordering_rec(children[k], egraph, &mut order);
        proof {
            lemma_reach_self(nodes, children@[k as int] as int);
            assert forall|j: int| 0 <= j < k + 1 implies #[trigger] id_set(order@).contains(children@[j] as int) by {
                if j < k {
                    assert(id_set(before).contains(children@[j] as int));
                }
            }
        }
        k = k + 1;
    }
    let mut expr = build_expr(&order, egraph);
    let n = order.len();
    let mut mapped: Vec<Id> = Vec::new();
    let mut k: usize = 0;
    while k < children.len()
        invariant
            n == order@.len(),
            expr.nodes@.len() == n,
            children@ == enode.children(),
            forall|j: int| 0 <= j < children@.len() ==> #[trigger] id_set(order@).contains(children@[j] as int),
            k <= children@.len(),
            mapped@.len() == k,
            forall|j: int| 0 <= j < k ==> #[trigger] mapped@[j] < n && order@[mapped@[j] as int] == children@[j],
        decreases children@.len() - k,
    {
        proof {
            let c = children@[k as int] as int;
            assert(id_set(order@).contains(c));
            let j = choose|j: int| 0 <= j < order@.len() && order@[j] as int == c;
            assert(order@.take(n as int)[j] == children@[k as int]);
        }
        mapped.push(position_of(&order, n, children[k]));
        k = k + 1;
    }
    let ghost e0 = expr;
    let new_node = match enode {
        Lambda::Var(i) => Lambda::Var(*i),
        Lambda::Prim(p) => Lambda::Prim(*p),
        Lambda::App(_, _) => Lambda::App(mapped[0], mapped[1]),
        Lambda::Lam(_) => Lambda::Lam(mapped[0]),
        Lambda::Programs(_) => Lambda::Programs(mapped),
    };
    proof {
        assert(new_node.children() == mapped@ || new_node.children().len() == 0);
        assert(new_node.children().len() == mapped@.len());
        assert forall|j: int| 0 <= j < new_node.children().len() implies #[trigger] new_node.children()[j] == mapped@[j] by {
        }
    }
    expr.add(new_node);
    proof {
        let ghost m = mapped@;
        assert forall|j: int| 0 <= j < m.len() implies #[trigger] expr.term(m[j] as int) == term_of(s, enode.children()[j] as int) by {
            assert(expr.term(m[j] as int) == e0.term(m[j] as int));
            assert(e0.term(m[j] as int) == egraph.term(order@[m[j] as int] as int));
            assert(enode.children()[j] < nodes.len());
        }
        match enode {
            Lambda::App(f, x) => {
                assert(expr.term(m[0] as int) == term_of(s, enode.children()[0] as int));
                assert(expr.term(m[1] as int) == term_of(s, enode.children()[1] as int));
            },
            Lambda::Lam(b) => {
                assert(expr.term(m[0] as int) == term_of(s, enode.children()[0] as int));
            },
            Lambda::Programs(ps) => {
                if let (Term::Programs(t1), Term::Programs(t2)) = (expr.root_term(), term_of(s, nodes.len() as int)) {
                    assert forall|kk: int| 0 <= kk < t1.len() implies t1[kk] == t2[kk] by {
                        assert(expr.term(m[kk] as int) == term_of(s, enode.children()[kk] as int));
                    }
                    assert(t1 =~= t2);
                }
            },
            _ => {},
        }
    }
    expr
}

/// A copy of `n` with its children moved up by `base`.
fn offset(n: &Lambda, base: usize, limit: usize) -> (r: Lambda)
    requires
        base + limit <= usize::MAX,
        forall|j: int| 0 <= j < n.children().len() ==> #[trigger] n.children()[j] < limit,
    ensures
        r.children().len() == n.children().len(),
        forall|j: int| 0 <= j < n.children().len() ==> #[trigger] r.children()[j] == n.children()[j] + base,
        n is Var ==> r == *n,
        n is Prim ==> r == *n,
        n is App ==> r is App,
        n is Lam ==> r is Lam,
        n is Programs ==> r is Programs,
{
    match n {
        Lambda::Var(i) => Lambda::Var(*i),
        Lambda::Prim(p) => Lambda::Prim(*p),
        Lambda::App(f, x) => {
            assert(n.children()[0] < limit);
            assert(n.children()[1] < limit);
            Lambda::App(*f + base, *x + base)
        },
        Lambda::Lam(b) => {
            assert(n.children()[0] < limit);
            Lambda::Lam(*b + base)
        },
        Lambda::Programs(ps) => {
            assert(forall|j: int| 0 <= j < ps@.len() ==> #[trigger] ps@[j] == n.children()[j]);
            let mut qs: Vec<Id> = Vec::new();
            let mut k: usize = 0;
            while k < ps.len()
                invariant
                    k <= ps@.len(),
                    base + limit <= usize::MAX,
                    forall|j: int| 0 <= j < ps@.len() ==> #[trigger] ps@[j] < limit,
                    qs@.len() == k,
                    forall|j: int| 0 <= j < k ==> #[trigger] qs@[j] == ps@[j] + base,
                decreases ps@.len() - k,
            {
                qs.push(ps[k] + base);
                k = k + 1;
            }
            Lambda::Programs(qs)
        },
    }
}

/// Appends all of `src` to `dst`, moving its positions up; returns where the
/// root of `src` now is.
pub fn append_expr(dst: &mut Expr, src: &Expr) -> (r: Id)
    requires
        old(dst).wf(),
        src.wf(),
        src.nodes@.len() > 0,
        old(dst).nodes@.len() + src.nodes@.len() <= usize::MAX,
    ensures
        final(dst).wf(),
        r < final(dst).nodes@.len(),
        final(dst).term(r as int) == src.root_term(),
        forall|i: int| 0 <= i < old(dst).nodes@.len() ==> #[trigger] final(dst).term(i) == old(dst).term(i),
        final(dst).nodes@.len() > old(dst).nodes@.len(),
{
    let base = dst.nodes.len();
    let ghost d0 = *dst;
    let mut i: usize = 0;
    while i < src.nodes.len()
        invariant
            src.wf(),
            dst.wf(),
            base == d0.nodes@.len(),
            base + src.nodes@.len() <= usize::MAX,
            i <= src.nodes@.len(),
            dst.nodes@.len() == base + i,
            forall|j: int| 0 <= j < base ==> #[trigger] dst.term(j) == d0.term(j),
            forall|j: int| 0 <= j < i ==> #[trigger] dst.term(base + j) == src.term(j),
        decreases src.nodes@.len() - i,
    {
        let ghost e0 = *dst;
        let sn = &src.nodes[i];
        proof {
            assert forall|j: int| 0 <= j < sn.children().len() implies #[trigger] sn.children()[j] < i by {
                assert(src.nodes@[i as int].children()[j] < i);
            }
        }
        let n = offset(sn, base, i);
        let pos = dst.add(n);
        proof {
            assert(pos == base + i);
            assert forall|j: int| 0 <= j < n.children().len() implies
                #[trigger] dst.term(n.children()[j] as int) == src.term(sn.children()[j] as int) by {
                assert(sn.children()[j] < i);
                let c = sn.children()[j] as int;
                assert(n.children()[j] == base + c);
                assert(dst.term(base + c) == e0.term(base + c));
            }
            match src.nodes@[i as int] {
                Lambda::App(f, x) => {
                    assert(dst.term(n.children()[0] as int) == src.term(sn.children()[0] as int));
                    assert(dst.term(n.children()[1] as int) == src.term(sn.children()[1] as int));
                },
                Lambda::Lam(b) => {
                    assert(dst.term(n.children()[0] as int) == src.term(sn.children()[0] as int));
                },
                Lambda::Programs(ps) => {
                    if let (Term::Programs(t1), Term::Programs(t2)) = (dst.term(pos as int), src.term(i as int)) {
                        assert forall|kk: int| 0 <= kk < t1.len() implies t1[kk] == t2[kk] by {
                            assert(dst.term(n.children()[kk] as int) == src.term(sn.children()[kk] as int));
                        }
                        assert(t1 =~= t2);
                    }
                },
                _ => {},
            }
            assert forall|j: int| 0 <= j < i + 1 implies #[trigger] dst.term(base + j) == src.term(j) by {
                if j < i {
                    assert(dst.term(base + j) == e0.term(base + j));
                }
            }
            assert forall|j: int| 0 <= j < base implies #[trigger] dst.term(j) == d0.term(j) by {
                assert(dst.term(j) == e0.term(j));
            }
        }
        i = i + 1;
    }
    proof {
        assert(dst.term(base + (src.nodes@.len() - 1)) == src.term(src.nodes@.len() - 1));
    }
    base + src.nodes.len() - 1
}

impl Invention {
    /// The invention as an expression: its body under `arity` abstractions.
    pub fn to_expr(&self, egraph: &ProgramGraph) -> (e: Expr)
        requires
            egraph.wf(),
            self.body < egraph.nodes().len(),
        ensures
            e.wf(),
            e.nodes@.len() > 0,
            e.root_term() == wrap_lams(egraph.term(self.body as int), self.arity as nat),
    {
        let mut expr = extract(self.body, egraph);
        let mut n: usize = 0;
        while n < self.arity
            invariant
                expr.wf(),
                expr.nodes@.len() > 0,
                n <= self.arity,
                expr.root_term() == wrap_lams(egraph.term(self.body as int), n as nat),
            decreases self.arity - n,
        {
            let r = expr.root();
            let ghost e0 = expr;
            expr.add(Lambda::Lam(r));
            proof {
                assert(expr.term(r as int) == e0.term(r as int));
                assert(expr.nodes@[r + 1] == Lambda::Lam(r));
            }
            n = n + 1;
        }
        expr
    }
}

} // verus!
