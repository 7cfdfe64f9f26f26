//! Candidate abstractions ("inventions"), their applications at a node
//! ("applams"), and the best cost each invention achieves at a node.

use vstd::prelude::*;
use crate::graph::ProgramGraph;
use crate::lambda::{upward_refs, Id};

verus! {

broadcast use vstd::seq_lib::group_to_multiset_ensures;

/// An abstraction: `arity` lambdas around the stored node `body`.
#[derive(Clone, Copy, PartialEq, Eq, Structural, Debug, Hash)]
pub struct Invention {
    pub body: Id,
    pub arity: usize,
}

impl Invention {
    pub fn new(body: Id, arity: usize) -> (inv: Invention)
        ensures
            inv == (Invention { body, arity }),
    {
        Invention { body, arity }
    }

    /// Makes the body its class representative; classes are never merged,
    /// so nothing changes.
    pub fn canonicalize(&mut self, egraph: &ProgramGraph)
        requires
            old(self).body < egraph.nodes().len(),
        ensures
            *final(self) == *old(self),
    {
        self.body = egraph.find(self.body);
    }

    /// Whether the body is its class representative.
    pub fn is_canonical(&self, egraph: &ProgramGraph) -> (r: bool)
        requires
            self.body < egraph.nodes().len(),
        ensures
            r,
    {
        self.body == egraph.find(self.body)
    }

    /// Every free variable of the body refers to one of the `arity`
    /// arguments (compared as `i32`, the type of de Bruijn indices).
    pub open spec fn spec_valid(self, egraph: ProgramGraph) -> bool {
        forall|i: i32| #[trigger] upward_refs(egraph.term(self.body as int)).contains(i) ==> i < self.arity as i32
    }

    /// Whether every free variable of the body refers to an argument. Even
    /// invalid inventions matter as parts of larger applams.
    pub fn valid_invention(&self, egraph: &ProgramGraph) -> (r: bool)
        requires
            egraph.wf(),
            self.body < egraph.nodes().len(),
        ensures
            r == self.spec_valid(*egraph),
    {
        crate::shift::all_below(egraph.upward_refs(self.body), self.arity as i32)
    }
}

/// An invention applied to arguments at a node: `(app ... (app inv arg_{n-1})
/// ... arg_0)`, where `arg_i` fills the references to `$i` of the body.
pub struct AppLam {
    pub inv: Invention,
    pub args: Vec<Id>,
}

impl AppLam {
    pub fn new(body: Id, args: Vec<Id>) -> (a: AppLam)
        ensures
            a.inv == (Invention { body, arity: args@.len() as usize }),
            a.args@ == args@,
    {
        let arity = args.len();
        AppLam { inv: Invention::new(body, arity), args }
    }

    /// Makes body and arguments class representatives; nothing changes.
    pub fn canonicalize(&mut self, egraph: &mut ProgramGraph)
        requires
            old(self).inv.body < old(egraph).nodes().len(),
            forall|i: int| 0 <= i < old(self).args@.len() ==> #[trigger] old(self).args@[i] < old(egraph).nodes().len(),
        ensures
            final(self).inv == old(self).inv,
            final(self).args@ == old(self).args@,
            *final(egraph) == *old(egraph),
    {
        self.inv.canonicalize(egraph);
        let mut i: usize = 0;
        while i < self.args.len()
            invariant
                i <= self.args@.len(),
                self.inv == old(self).inv,
                self.args@ == old(self).args@,
                forall|j: int| 0 <= j < self.args@.len() ==> #[trigger] self.args@[j] < egraph.nodes().len(),
            decreases self.args@.len() - i,
        {
            if !canonical(&self.args[i], egraph) {
                let f = egraph.find(self.args[i]);
                self.args.set(i, f);
            }
            i = i + 1;
        }
    }

    /// Whether body and arguments are class representatives.
    pub fn is_canonical(&self, egraph: &ProgramGraph) -> (r: bool)
        requires
            self.inv.body < egraph.nodes().len(),
            forall|i: int| 0 <= i < self.args@.len() ==> #[trigger] self.args@[i] < egraph.nodes().len(),
        ensures
            r,
    {
        if !self.inv.is_canonical(egraph) {
            return false;
        }
        let mut i: usize = 0;
        while i < self.args.len()
            invariant
                i <= self.args@.len(),
                forall|j: int| 0 <= j < self.args@.len() ==> #[trigger] self.args@[j] < egraph.nodes().len(),
            decreases self.args@.len() - i,
        {
            if !canonical(&self.args[i], egraph) {
                return false;
            }
            i = i + 1;
        }
        true
    }
}

/// Whether `id` is its class representative.
pub fn canonical(id: &Id, egraph: &ProgramGraph) -> (r: bool)
    requires
        *id < egraph.nodes().len(),
    ensures
        r,
{
    egraph.find(*id) == *id
}

/// A map from inventions to costs, kept as a list of entries with distinct
/// inventions in insertion order.
pub struct InventionCosts {
    entries: Vec<(Invention, i32)>,
}

/// No invention has two entries.
pub open spec fn distinct_keys(e: Seq<(Invention, i32)>) -> bool {
    forall|i: int, j: int| 0 <= i < e.len() && 0 <= j < e.len() && i != j ==> (#[trigger] e[i]).0 != (#[trigger] e[j]).0
}

/// The map a list of entries with distinct keys stands for.
pub open spec fn entries_map(e: Seq<(Invention, i32)>) -> Map<Invention, i32> {
    Map::new(
        |k: Invention| exists|i: int| 0 <= i < e.len() && (#[trigger] e[i]).0 == k,
        |k: Invention| e[choose|i: int| 0 <= i < e.len() && (#[trigger] e[i]).0 == k].1,
    )
}

pub proof fn lemma_entries_map_at(e: Seq<(Invention, i32)>, i: int)
    requires
        distinct_keys(e),
        0 <= i < e.len(),
    ensures
        entries_map(e).contains_key(e[i].0),
        entries_map(e)[e[i].0] == e[i].1,
{
    let k = e[i].0;
    assert(entries_map(e).dom().contains(k));
    let j = choose|j: int| 0 <= j < e.len() && (#[trigger] e[j]).0 == k;
    assert(j == i);
}

pub proof fn lemma_entries_map_push(e: Seq<(Invention, i32)>, k: Invention, c: i32)
    requires
        distinct_keys(e),
        !entries_map(e).contains_key(k),
    ensures
        distinct_keys(e.push((k, c))),
        entries_map(e.push((k, c))) == entries_map(e).insert(k, c),
{
    let e2 = e.push((k, c));
    assert forall|i: int, j: int| 0 <= i < e2.len() && 0 <= j < e2.len() && i != j implies (#[trigger] e2[i]).0 != (#[trigger] e2[j]).0 by {
        if i < e.len() && j < e.len() {
        } else if i < e.len() {
            assert(entries_map(e).contains_key(e[i].0));
        } else {
            assert(entries_map(e).contains_key(e[j].0));
        }
    }
    assert forall|q: Invention| #[trigger] entries_map(e2).contains_key(q) <==> entries_map(e).insert(k, c).contains_key(q) by {
        assert(e2[e.len() as int].0 == k);
        if entries_map(e).contains_key(q) {
            let i = choose|i: int| 0 <= i < e.len() && (#[trigger] e[i]).0 == q;
            assert(e2[i].0 == q);
        }
        if entries_map(e2).contains_key(q) && q != k {
            let i = choose|i: int| 0 <= i < e2.len() && (#[trigger] e2[i]).0 == q;
            assert(e[i].0 == q);
        }
    }
    assert forall|q: Invention| #[trigger] entries_map(e2).contains_key(q) implies entries_map(e2)[q] == entries_map(e).insert(k, c)[q] by {
        let i = choose|i: int| 0 <= i < e2.len() && (#[trigger] e2[i]).0 == q;
        lemma_entries_map_at(e2, i);
        if i < e.len() {
            lemma_entries_map_at(e, i);
        }
    }
    assert(entries_map(e2) =~= entries_map(e).insert(k, c));
}

pub proof fn lemma_entries_map_update(e: Seq<(Invention, i32)>, i: int, c: i32)
    requires
        distinct_keys(e),
        0 <= i < e.len(),
    ensures
        distinct_keys(e.update(i, (e[i].0, c))),
        entries_map(e.update(i, (e[i].0, c))) == entries_map(e).insert(e[i].0, c),
{
    let e2 = e.update(i, (e[i].0, c));
    let k = e[i].0;
    assert forall|a: int, b: int| 0 <= a < e2.len() && 0 <= b < e2.len() && a != b implies (#[trigger] e2[a]).0 != (#[trigger] e2[b]).0 by {
        assert(e2[a].0 == e[a].0);
        assert(e2[b].0 == e[b].0);
    }
    assert forall|q: Invention| #[trigger] entries_map(e2).contains_key(q) <==> entries_map(e).insert(k, c).contains_key(q) by {
        if entries_map(e).contains_key(q) {
            let j = choose|j: int| 0 <= j < e.len() && (#[trigger] e[j]).0 == q;
            assert(e2[j].0 == q);
        }
        if entries_map(e2).contains_key(q) {
            let j = choose|j: int| 0 <= j < e2.len() && (#[trigger] e2[j]).0 == q;
            assert(e[j].0 == q);
        }
    }
    assert forall|q: Invention| #[trigger] entries_map(e2).contains_key(q) implies entries_map(e2)[q] == entries_map(e).insert(k, c)[q] by {
        let j = choose|j: int| 0 <= j < e2.len() && (#[trigger] e2[j]).0 == q;
        lemma_entries_map_at(e2, j);
        if j != i {
            lemma_entries_map_at(e, j);
        }
    }
    assert(entries_map(e2) =~= entries_map(e).insert(k, c));
}

pub proof fn lemma_entries_map_remove(e: Seq<(Invention, i32)>, i: int)
    requires
        distinct_keys(e),
        0 <= i < e.len(),
    ensures
        distinct_keys(e.remove(i)),
        entries_map(e.remove(i)) == entries_map(e).remove(e[i].0),
{
    let e2 = e.remove(i);
    let k = e[i].0;
    assert forall|a: int, b: int| 0 <= a < e2.len() && 0 <= b < e2.len() && a != b implies (#[trigger] e2[a]).0 != (#[trigger] e2[b]).0 by {
        let a1 = if a < i { a } else { a + 1 };
        let b1 = if b < i { b } else { b + 1 };
        assert(e2[a] == e[a1]);
        assert(e2[b] == e[b1]);
    }
    assert forall|q: Invention| #[trigger] entries_map(e2).contains_key(q) <==> entries_map(e).remove(k).contains_key(q) by {
        if entries_map(e).contains_key(q) && q != k {
            let j = choose|j: int| 0 <= j < e.len() && (#[trigger] e[j]).0 == q;
            if j < i {
                assert(e2[j].0 == q);
            } else {
                assert(j != i);
                assert(e2[j - 1].0 == q);
            }
        }
        if entries_map(e2).contains_key(q) {
            let j = choose|j: int| 0 <= j < e2.len() && (#[trigger] e2[j]).0 == q;
            let j1 = if j < i { j } else { j + 1 };
            assert(e[j1].0 == q);
            assert(j1 != i);
        }
    }
    assert forall|q: Invention| #[trigger] entries_map(e2).contains_key(q) implies entries_map(e2)[q] == entries_map(e).remove(k)[q] by {
        let j = choose|j: int| 0 <= j < e2.len() && (#[trigger] e2[j]).0 == q;
        lemma_entries_map_at(e2, j);
        let j1 = if j < i { j } else { j + 1 };
        assert(e2[j] == e[j1]);
        lemma_entries_map_at(e, j1);
    }
    assert(entries_map(e2) =~= entries_map(e).remove(k));
}

impl InventionCosts {
    pub closed spec fn entries(&self) -> Seq<(Invention, i32)> {
        self.entries@
    }

    /// The map this stands for.
    pub open spec fn view(&self) -> Map<Invention, i32> {
        entries_map(self.entries())
    }

    pub open spec fn wf(&self) -> bool {
        distinct_keys(self.entries())
    }

    pub fn new() -> (m: InventionCosts)
        ensures
            m.wf(),
            m@ == Map::<Invention, i32>::empty(),
            m.entries() == Seq::<(Invention, i32)>::empty(),
    {
        let m = InventionCosts { entries: Vec::new() };
        assert(m@ =~= Map::<Invention, i32>::empty());
        m
    }

    pub fn len(&self) -> (n: usize)
        ensures
            n == self.entries().len(),
    {
        self.entries.len()
    }

    /// The entry at position `i`, in insertion order.
    pub fn entry(&self, i: usize) -> (e: (Invention, i32))
        requires
            self.wf(),
            i < self.entries().len(),
        ensures
            e == self.entries()[i as int],
            self@.contains_key(e.0),
            self@[e.0] == e.1,
    {
        proof {
            lemma_entries_map_at(self.entries(), i as int);
        }
        self.entries[i]
    }

    /// The position of `inv`'s entry.
    fn position(&self, inv: &Invention) -> (r: Option<usize>)
        requires
            self.wf(),
        ensures
            match r {
                Some(i) => i < self.entries().len() && self.entries()[i as int].0 == *inv,
                None => !self@.contains_key(*inv),
            },
    {
        let mut i: usize = 0;
        while i < self.entries.len()
            invariant
                i <= self.entries@.len(),
                forall|j: int| 0 <= j < i ==> (#[trigger] self.entries@[j]).0 != *inv,
            decreases self.entries@.len() - i,
        {
            if self.entries[i].0 == *inv {
                return Some(i);
            }
            i = i + 1;
        }
        None
    }

    pub fn contains_key(&self, inv: &Invention) -> (r: bool)
        requires
            self.wf(),
        ensures
            r == self@.contains_key(*inv),
    {
        match self.position(inv) {
            Some(i) => {
                proof {
                    lemma_entries_map_at(self.entries(), i as int);
                }
                true
            },
            None => false,
        }
    }

    pub fn get(&self, inv: &Invention) -> (r: Option<i32>)
        requires
            self.wf(),
        ensures
            match r {
                Some(c) => self@.contains_key(*inv) && self@[*inv] == c,
                None => !self@.contains_key(*inv),
            },
    {
        match self.position(inv) {
            Some(i) => {
                proof {
                    lemma_entries_map_at(self.entries(), i as int);
                }
                Some(self.entries[i].1)
            },
            None => None,
        }
    }

    /// Sets the cost of `inv`; a new invention goes last.
    pub fn insert(&mut self, inv: Invention, cost: i32)
        requires
            old(self).wf(),
        ensures
            final(self).wf(),
            final(self)@ == old(self)@.insert(inv, cost),
    {
        match self.position(&inv) {
            Some(i) => {
                proof {
                    lemma_entries_map_update(self.entries@, i as int, cost);
                }
                self.entries.set(i, (inv, cost));
            },
            None => {
                proof {
                    lemma_entries_map_push(self.entries@, inv, cost);
                }
                self.entries.push((inv, cost));
            },
        }
    }

    /// Removes the entry of `inv`, keeping the others in order.
    pub fn remove(&mut self, inv: &Invention)
        requires
            old(self).wf(),
        ensures
            final(self).wf(),
            final(self)@ == old(self)@.remove(*inv),
            final(self).entries().len() == old(self).entries().len() - if old(self)@.contains_key(*inv) { 1int } else { 0int },
    {
        match self.position(inv) {
            Some(i) => {
                proof {
                    lemma_entries_map_remove(self.entries@, i as int);
                    lemma_entries_map_at(self.entries@, i as int);
                }
                self.entries.remove(i);
            },
            None => {
                assert(self@ =~= old(self)@.remove(*inv));
            },
        }
    }

    /// The inventions, in insertion order.
    pub fn keys(&self) -> (r: Vec<Invention>)
        requires
            self.wf(),
        ensures
            r@ == self.entries().map_values(|e: (Invention, i32)| e.0),
            r@.to_set() == self@.dom(),
            r@.no_duplicates(),
    {
        let mut r: Vec<Invention> = Vec::new();
        let mut i: usize = 0;
        while i < self.entries.len()
            invariant
                self.wf(),
                i <= self.entries@.len(),
                r@ == self.entries@.take(i as int).map_values(|e: (Invention, i32)| e.0),
            decreases self.entries@.len() - i,
        {
            r.push(self.entries[i].0);
            i = i + 1;
            assert(r@ =~= self.entries@.take(i as int).map_values(|e: (Invention, i32)| e.0));
        }
        assert(self.entries@.take(i as int) =~= self.entries@);
        proof {
            assert forall|k: Invention| r@.to_set().contains(k) <==> self@.dom().contains(k) by {
                if self@.dom().contains(k) {
                    let j = choose|j: int| 0 <= j < self.entries@.len() && (#[trigger] self.entries@[j]).0 == k;
                    assert(r@[j] == k);
                }
                if r@.to_set().contains(k) {
                    let j = choose|j: int| 0 <= j < r@.len() && r@[j] == k;
                    assert(self.entries@[j].0 == k);
                }
            }
            assert(r@.to_set() =~= self@.dom());
        }
        r
    }
}

/// `keys` ordered by their costs in `costs`: rising when `ascending`,
/// falling otherwise.
pub open spec fn sorted_by_cost(keys: Seq<Invention>, costs: Map<Invention, i32>, ascending: bool) -> bool {
    forall|i: int, j: int| 0 <= i < j < keys.len() ==> if ascending {
        costs[#[trigger] keys[i]] <= costs[#[trigger] keys[j]]
    } else {
        costs[keys[i]] >= costs[keys[j]]
    }
}

/// Entries of `r` with equal costs keep the order they have in `keys`.
pub open spec fn keeps_order(r: Seq<Invention>, keys: Seq<Invention>, costs: Map<Invention, i32>) -> bool {
    forall|a: int, b: int|
        0 <= a < b < r.len() && costs[#[trigger] r[a]] == costs[#[trigger] r[b]]
            ==> exists|ia: int, ib: int| 0 <= ia < ib < keys.len() && keys[ia] == r[a] && keys[ib] == r[b]
}

/// A stable sort of `keys` by their costs in `costs`.
pub fn sort_by_cost(keys: &Vec<Invention>, costs: &InventionCosts, ascending: bool) -> (r: Vec<Invention>)
    requires
        costs.wf(),
        forall|i: int| 0 <= i < keys@.len() ==> costs@.contains_key(#[trigger] keys@[i]),
    ensures
        r@.to_multiset() == keys@.to_multiset(),
        sorted_by_cost(r@, costs@, ascending),
        keeps_order(r@, keys@, costs@),
{
    let mut r: Vec<Invention> = Vec::new();
    let mut i: usize = 0;
    while i < keys.len()
        invariant
            costs.wf(),
            i <= keys@.len(),
            forall|i: int| 0 <= i < keys@.len() ==> costs@.contains_key(#[trigger] keys@[i]),
            r@.to_multiset() == keys@.take(i as int).to_multiset(),
            forall|j: int| 0 <= j < r@.len() ==> costs@.contains_key(#[trigger] r@[j]),
            forall|j: int| 0 <= j < r@.len() ==> exists|q: int| 0 <= q < i && keys@[q] == #[trigger] r@[j],
            sorted_by_cost(r@, costs@, ascending),
            keeps_order(r@, keys@, costs@),
        decreases keys@.len() - i,
    {
        let k = keys[i];
        let c = costs.get(&k).unwrap();
        // the first position whose cost comes strictly after `c`
        let mut p: usize = 0;
        let mut found = false;
        while !found && p < r.len()
            invariant
                costs.wf(),
                p <= r@.len(),
                forall|j: int| 0 <= j < r@.len() ==> costs@.contains_key(#[trigger] r@[j]),
                forall|j: int| 0 <= j < p ==> if ascending {
                    costs@[#[trigger] r@[j]] <= c
                } else {
                    costs@[r@[j]] >= c
                },
                found ==> p < r@.len() && if ascending {
                    costs@[r@[p as int]] > c
                } else {
                    costs@[r@[p as int]] < c
                },
            decreases r@.len() - p, if found { 0int } else { 1int },
        {
            let cp = costs.get(&r[p]).unwrap();
            if (ascending && cp > c) || (!ascending && cp < c) {
                found = true;
            } else {
                p = p + 1;
            }
        }
        let ghost r0 = r@;
        proof {
            if p < r0.len() {
                assert(costs@.contains_key(r0[p as int]));
            }
        }
        r.insert(p, k);
        proof {
            assert(keys@.take(i + 1) =~= keys@.take(i as int).push(k));
            assert forall|j: int| 0 <= j < r@.len() implies exists|q: int| 0 <= q < i + 1 && keys@[q] == #[trigger] r@[j] by {
                if j < p {
                    assert(r@[j] == r0[j]);
                    let q = choose|q: int| 0 <= q < i && keys@[q] == #[trigger] r0[j];
                } else if j > p {
                    assert(r@[j] == r0[j - 1]);
                    let q = choose|q: int| 0 <= q < i && keys@[q] == #[trigger] r0[j - 1];
                } else {
                    assert(keys@[i as int] == r@[j]);
                }
            }
            assert forall|a: int, b: int|
                0 <= a < b < r@.len() && costs@[#[trigger] r@[a]] == costs@[#[trigger] r@[b]]
                implies exists|ia: int, ib: int| 0 <= ia < ib < keys@.len() && keys@[ia] == r@[a] && keys@[ib] == r@[b] by {
                if a != p as int && b != p as int {
                    let a0 = if a < p { a } else { a - 1 };
                    let b0 = if b < p { b } else { b - 1 };
                    assert(r@[a] == r0[a0]);
                    assert(r@[b] == r0[b0]);
                    assert(costs@[r0[a0]] == costs@[r0[b0]]);
                } else if b == p as int {
                    assert(r@[a] == r0[a]);
                    let q = choose|q: int| 0 <= q < i && keys@[q] == #[trigger] r0[a];
                    assert(keys@[q] == r@[a] && keys@[i as int] == r@[b]);
                } else {
                    // a == p: every later entry costs strictly more (or less)
                    assert(r@[b] == r0[b - 1]);
                    assert(p < r0.len());
                    if ascending {
                        assert(costs@[r0[p as int]] > c);
                        if b - 1 > p {
                            assert(costs@[r0[p as int]] <= costs@[r0[b - 1]]);
                        }
                    } else {
                        assert(costs@[r0[p as int]] < c);
                        if b - 1 > p {
                            assert(costs@[r0[p as int]] >= costs@[r0[b - 1]]);
                        }
                    }
                    assert(false);
                }
            }
            assert forall|j: int| 0 <= j < r@.len() implies costs@.contains_key(#[trigger] r@[j]) by {
                if j < p {
                    assert(r@[j] == r0[j]);
                } else if j > p {
                    assert(r@[j] == r0[j - 1]);
                }
            }
            assert forall|a: int, b: int| 0 <= a < b < r@.len() implies if ascending {
                costs@[#[trigger] r@[a]] <= costs@[#[trigger] r@[b]]
            } else {
                costs@[r@[a]] >= costs@[r@[b]]
            } by {
                let a0 = if a < p { a } else { a - 1 };
                let b0 = if b < p { b } else { b - 1 };
                if a != p as int && b != p as int {
                    assert(r@[a] == r0[a0]);
                    assert(r@[b] == r0[b0]);
                } else if a == p as int {
                    assert(r@[b] == r0[b0]);
                    if ascending {
                        if p < r0.len() {
                            assert(costs@[r0[p as int]] > c);
                            assert(costs@[r0[p as int]] <= costs@[r0[b0]]) by {
                                if b0 > p as int {
                                    assert(costs@[r0[p as int]] <= costs@[r0[b0]]);
                                }
                            }
                        }
                    } else {
                        if p < r0.len() {
                            assert(costs@[r0[p as int]] < c);
                            assert(costs@[r0[p as int]] >= costs@[r0[b0]]) by {
                                if b0 > p as int {
                                    assert(costs@[r0[p as int]] >= costs@[r0[b0]]);
                                }
                            }
                        }
                    }
                } else {
                    assert(r@[a] == r0[a0]);
                }
            }
        }
        i = i + 1;
    }
    assert(keys@.take(keys@.len() as int) =~= keys@);
    r
}

/// The best cost of each invention at one node.
pub struct BestInventions {
    /// The node's size without inventions.
    pub inventionless_cost: i32,
    /// For each invention that makes the node smaller, the smallest size
    /// found with it.
    pub inventionful_cost: InventionCosts,
}

impl BestInventions {
    /// Every recorded cost beats the inventionless cost.
    pub open spec fn wf(&self) -> bool {
        &&& self.inventionful_cost.wf()
        &&& forall|inv: Invention| #[trigger] self.inventionful_cost@.contains_key(inv) ==> self.inventionful_cost@[inv] < self.inventionless_cost
    }

    /// The node's cost when `inv` may be used.
    pub open spec fn spec_cost_under_inv(&self, inv: Invention) -> i32 {
        if self.inventionful_cost@.contains_key(inv) {
            self.inventionful_cost@[inv]
        } else {
            self.inventionless_cost
        }
    }

    pub fn new(inventionless_cost: i32) -> (b: BestInventions)
        ensures
            b.wf(),
            b.inventionless_cost == inventionless_cost,
            b.inventionful_cost@ == Map::<Invention, i32>::empty(),
    {
        BestInventions { inventionless_cost, inventionful_cost: InventionCosts::new() }
    }

    /// The node's cost under `inv`, or its inventionless cost when `inv` does
    /// not help here.
    pub fn cost_under_inv(&self, inv: &Invention) -> (c: i32)
        requires
            self.wf(),
        ensures
            c == self.spec_cost_under_inv(*inv),
            c <= self.inventionless_cost,
    {
        match self.inventionful_cost.get(inv) {
            Some(c) => c,
            None => self.inventionless_cost,
        }
    }

    /// Records that the node can cost `cost` with `inv`; kept only when it
    /// beats both the inventionless cost and the best cost so far.
    pub fn new_cost_under_inv(&mut self, inv: Invention, cost: i32)
        requires
            old(self).wf(),
        ensures
            final(self).wf(),
            final(self).inventionless_cost == old(self).inventionless_cost,
            final(self).inventionful_cost@ == if cost < old(self).inventionless_cost
                && (!old(self).inventionful_cost@.contains_key(inv) || cost < old(self).inventionful_cost@[inv]) {
                old(self).inventionful_cost@.insert(inv, cost)
            } else {
                old(self).inventionful_cost@
            },
    {
        if cost < self.inventionless_cost {
            let better = match self.inventionful_cost.get(&inv) {
                Some(c) => cost < c,
                None => true,
            };
            if better {
                self.inventionful_cost.insert(inv, cost);
            }
        }
    }

    /// The inventions recorded here, cheapest first (stable on ties).
    pub fn top_inventions(&self) -> (r: Vec<Invention>)
        requires
            self.wf(),
        ensures
            r@.to_set() == self.inventionful_cost@.dom(),
            r@.no_duplicates(),
            r@.len() == self.inventionful_cost.entries().len(),
            sorted_by_cost(r@, self.inventionful_cost@, true),
            keeps_order(r@, self.inventionful_cost.entries().map_values(|e: (Invention, i32)| e.0), self.inventionful_cost@),
    {
        let keys = self.inventionful_cost.keys();
        proof {
            assert forall|i: int| 0 <= i < keys@.len() implies self.inventionful_cost@.contains_key(#[trigger] keys@[i]) by {
                assert(keys@.to_set().contains(keys@[i]));
            }
        }
        let r = sort_by_cost(&keys, &self.inventionful_cost, true);
        proof {
            lemma_same_multiset_set(r@, keys@);
        }
        r
    }
}

/// Recording a cost never makes any invention's cost worse, and the recorded
/// invention then costs at most the new cost when that beats the
/// inventionless cost.
pub proof fn law_recording_lowers_costs(before: BestInventions, after: BestInventions, inv: Invention, cost: i32)
    requires
        before.wf(),
        after.inventionless_cost == before.inventionless_cost,
        after.inventionful_cost@ == if cost < before.inventionless_cost
            && (!before.inventionful_cost@.contains_key(inv) || cost < before.inventionful_cost@[inv]) {
            before.inventionful_cost@.insert(inv, cost)
        } else {
            before.inventionful_cost@
        },
    ensures
        forall|k: Invention| #[trigger] after.spec_cost_under_inv(k) <= before.spec_cost_under_inv(k),
        cost < before.inventionless_cost ==> after.spec_cost_under_inv(inv) <= cost,
        after.spec_cost_under_inv(inv) <= before.inventionless_cost,
{
}

/// Sequences with the same multiset have the same elements, the same length,
/// and one has repeats exactly when the other does.
pub proof fn lemma_same_multiset_set(a: Seq<Invention>, b: Seq<Invention>)
    requires
        a.to_multiset() == b.to_multiset(),
    ensures
        a.to_set() == b.to_set(),
        a.len() == b.len(),
        b.no_duplicates() ==> a.no_duplicates(),
{
    a.to_multiset_ensures();
    b.to_multiset_ensures();
    vstd::seq_lib::to_multiset_len(a);
    vstd::seq_lib::to_multiset_len(b);
    assert forall|x: Invention| a.to_set().contains(x) <==> b.to_set().contains(x) by {
        assert(a.contains(x) <==> a.to_multiset().count(x) > 0);
        assert(b.contains(x) <==> b.to_multiset().count(x) > 0);
    }
    assert(a.to_set() =~= b.to_set());
    if b.no_duplicates() {
        b.lemma_multiset_has_no_duplicates();
        a.lemma_multiset_has_no_duplicates_conv();
    }
}

/// Keeps the `beam_size` cheapest inventions of a beam: when it holds more,
/// the most expensive ones are dropped until `beam_size` remain (among equal
/// costs, those recorded first are dropped first).
pub fn narrow_beam(beam: &mut InventionCosts, beam_size: usize)
    requires
        old(beam).wf(),
    ensures
        final(beam).wf(),
        old(beam).entries().len() <= beam_size ==> *final(beam) == *old(beam),
        forall|k: Invention| #[trigger] final(beam)@.contains_key(k) ==> old(beam)@.contains_key(k) && final(beam)@[k] == old(beam)@[k],
        final(beam).entries().len() == if old(beam).entries().len() <= beam_size {
            old(beam).entries().len() as int
        } else {
            beam_size as int
        },
        forall|k: Invention, d: Invention| #[trigger] final(beam)@.contains_key(k) && old(beam)@.contains_key(d) && !#[trigger] final(beam)@.contains_key(d)
            ==> old(beam)@[k] <= old(beam)@[d],
        old(beam).entries().len() > beam_size ==> exists|order: Seq<Invention>| {
            &&& #[trigger] order.to_multiset() == old(beam).entries().map_values(|e: (Invention, i32)| e.0).to_multiset()
            &&& sorted_by_cost(order, old(beam)@, false)
            &&& keeps_order(order, old(beam).entries().map_values(|e: (Invention, i32)| e.0), old(beam)@)
            &&& forall|k: Invention| #[trigger] final(beam)@.contains_key(k) <==> old(beam)@.contains_key(k)
                && !order.take(old(beam).entries().len() - beam_size).contains(k)
        },
{
    if beam.len() <= beam_size {
        return;
    }
    let num_to_drop = beam.len() - beam_size;
    let keys = beam.keys();
    proof {
        assert forall|i: int| 0 <= i < keys@.len() implies beam@.contains_key(#[trigger] keys@[i]) by {
            assert(keys@.to_set().contains(keys@[i]));
        }
    }
    // decreasing order of cost
    let costs = sort_by_cost(&keys, beam, false);
    proof {
        lemma_same_multiset_set(costs@, keys@);
        keys@.unique_seq_to_set();
    }
    let ghost b0 = *beam;
    let mut i: usize = 0;
    while i < num_to_drop && i < costs.len()
        invariant
            beam.wf(),
            b0.wf(),
            i <= costs@.len(),
            i <= num_to_drop,
            num_to_drop == b0.entries().len() - beam_size,
            b0.entries().len() > beam_size,
            costs@.no_duplicates(),
            costs@.to_set() == b0@.dom(),
            costs@.len() == b0.entries().len(),
            sorted_by_cost(costs@, b0@, false),
            forall|k: Invention| #[trigger] beam@.contains_key(k) <==> b0@.contains_key(k) && !costs@.take(i as int).contains(k),
            forall|k: Invention| #[trigger] beam@.contains_key(k) ==> beam@[k] == b0@[k],
            beam.entries().len() == b0.entries().len() - i,
        decreases costs@.len() - i,
    {
        let ghost before = *beam;
        proof {
            assert(costs@.to_set().contains(costs@[i as int]));
            assert(!costs@.take(i as int).contains(costs@[i as int])) by {
                if costs@.take(i as int).contains(costs@[i as int]) {
                    let j = choose|j: int| 0 <= j < i && costs@.take(i as int)[j] == costs@[i as int];
                    assert(costs@[j] == costs@[i as int]);
                }
            }
        }
        beam.remove(&costs[i]);
        proof {
            let t0 = costs@.take(i as int);
            let t1 = costs@.take(i + 1);
            assert(t1 =~= t0.push(costs@[i as int]));
            assert forall|k: Invention| #[trigger] beam@.contains_key(k) <==> b0@.contains_key(k) && !t1.contains(k) by {
                if t1.contains(k) && k != costs@[i as int] {
                    let j = choose|j: int| 0 <= j < t1.len() && t1[j] == k;
                    assert(t0[j] == k);
                }
                if t0.contains(k) {
                    let j = choose|j: int| 0 <= j < t0.len() && t0[j] == k;
                    assert(t1[j] == k);
                }
                if k == costs@[i as int] {
                    assert(t1[i as int] == k);
                }
            }
        }
        i = i + 1;
    }
    proof {
        assert forall|k: Invention, d: Invention| #[trigger] beam@.contains_key(k) && b0@.contains_key(d) && !#[trigger] beam@.contains_key(d)
            implies b0@[k] <= b0@[d] by {
            assert(costs@.take(i as int).contains(d));
            let jd = choose|j: int| 0 <= j < i && costs@.take(i as int)[j] == d;
            assert(costs@.to_set().contains(k));
            let jk = choose|j: int| 0 <= j < costs@.len() && costs@[j] == k;
            if jk < i {
                assert(costs@.take(i as int)[jk] == k);
            }
            assert(costs@[jd] == d);
        }
    }
}

} // verus!
