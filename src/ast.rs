//! Atoms, expression nodes and the expression graph.
//!
//! Expressions live in a [`Graph`]: an append-only arena of nodes in which
//! an application only refers to nodes allocated before it, so the graph is
//! acyclic and every index denotes a finite [`Term`].  Each node carries a
//! memo slot holding the index of its reduced form.
use std::collections::HashMap;
use vstd::prelude::*;

use crate::semantics::{ap, evaluates, EvalError};

verus! {

broadcast use vstd::std_specs::hash::group_hash_axioms;

/// A leaf of an expression: a literal, a variable or a combinator.
///
/// `Bool(true)` is the K combinator (`t`), `Bool(false)` is Church false.
#[derive(Clone, Copy, Debug, PartialEq, Eq, Structural, Hash)]
pub enum Atom {
    Nil,
    Int(i64),
    Var(u64),
    Bool(bool),
    Neg,
    Inc,
    Dec,
    Add,
    Mul,
    Div,
    Eq,
    Lt,
    S,
    I,
    B,
    C,
    Cons,
    Car,
    Cdr,
    IsNil,
    Galaxy,
}

/// A node of the expression graph: an atom, or the application of the
/// node at the first index to the node at the second.
#[derive(Clone, Copy, Debug, PartialEq, Eq, Structural, Hash)]
pub enum Exp {
    Atom(Atom),
    App(usize, usize),
}

/// The tree that a node denotes, with all sharing unfolded.
#[derive(Debug)]
pub enum Term {
    Leaf(Atom),
    Ap(Box<Term>, Box<Term>),
}

/// The term denoted by node `i` of `nodes`.
pub open spec fn term_at(nodes: Seq<Exp>, i: int) -> Term
    decreases i,
{
    if 0 <= i < nodes.len() {
        match nodes[i] {
            Exp::Atom(a) => Term::Leaf(a),
            Exp::App(f, x) => if f < i && x < i {
                Term::Ap(Box::new(term_at(nodes, f as int)), Box::new(term_at(nodes, x as int)))
            } else {
                Term::Leaf(Atom::Nil)
            },
        }
    } else {
        Term::Leaf(Atom::Nil)
    }
}

/// Appending nodes leaves the terms of the earlier nodes as they were.
pub proof fn lemma_term_prefix(short: Seq<Exp>, long: Seq<Exp>, i: int)
    requires
        short.len() <= long.len(),
        short == long.subrange(0, short.len() as int),
        0 <= i < short.len(),
    ensures
        term_at(short, i) == term_at(long, i),
    decreases i,
{
    assert(short[i] == long[i]);
    match short[i] {
        Exp::Atom(_) => {},
        Exp::App(f, x) => {
            if f < i && x < i {
                lemma_term_prefix(short, long, f as int);
                lemma_term_prefix(short, long, x as int);
            }
        },
    }
}

/// Expression graph: the nodes, their memo slots, and the variable bindings.
pub struct Graph {
    nodes: Vec<Exp>,
    memo: Vec<Option<usize>>,
    defs: HashMap<u64, usize>,
}

impl Graph {
    /// The nodes, in order of allocation.
    pub closed spec fn nodes(&self) -> Seq<Exp> {
        self.nodes@
    }

    /// The memo slot of each node.
    pub closed spec fn memo(&self) -> Seq<Option<usize>> {
        self.memo@
    }

    /// The node bound to each variable.
    pub closed spec fn defs(&self) -> Map<u64, usize> {
        self.defs@
    }

    pub open spec fn len(&self) -> nat {
        self.nodes().len()
    }

    /// The term that node `i` denotes.
    pub open spec fn term(&self, i: int) -> Term {
        term_at(self.nodes(), i)
    }

    /// The binding environment, as terms.
    pub open spec fn env(&self) -> Map<u64, Term> {
        Map::new(|v: u64| self.defs().contains_key(v), |v: u64| self.term(self.defs()[v] as int))
    }

    /// Applications refer to earlier nodes; every memo slot and binding
    /// refers to an existing node; a memo slot holds a normal form of its
    /// node under the bindings.
    pub open spec fn wf(&self) -> bool {
        &&& self.memo().len() == self.len()
        &&& forall|i: int|
            0 <= i < self.len() ==> match #[trigger] self.nodes()[i] {
                Exp::App(f, x) => f < i && x < i,
                Exp::Atom(_) => true,
            }
        &&& forall|v: u64| #[trigger] self.defs().contains_key(v) ==> self.defs()[v] < self.len()
        &&& forall|i: int|
            0 <= i < self.len() && (#[trigger] self.memo()[i]) is Some ==> {
                let j = self.memo()[i]->0;
                &&& j < self.len()
                &&& evaluates(self.env(), self.term(i), Ok(self.term(j as int)))
            }
    }

    /// `self` was obtained from `old` by allocating nodes and filling memo
    /// slots: the earlier nodes and the bindings are unchanged.
    pub open spec fn grows_from(&self, old: &Graph) -> bool {
        &&& old.len() <= self.len()
        &&& old.nodes() == self.nodes().subrange(0, old.len() as int)
        &&& self.defs() == old.defs()
    }

    /// No memo slot is filled.
    pub open spec fn memo_clear(&self) -> bool {
        forall|i: int| 0 <= i < self.memo().len() ==> (#[trigger] self.memo()[i]) is None
    }

    /// Terms and bindings of a graph are kept by growth.
    pub proof fn lemma_grows(&self, old: &Graph)
        requires
            old.wf(),
            self.grows_from(old),
        ensures
            forall|i: int| 0 <= i < old.len() ==> #[trigger] self.term(i) == old.term(i),
            self.env() == old.env(),
    {
        assert forall|i: int| 0 <= i < old.len() implies #[trigger] self.term(i) == old.term(i) by {
            lemma_term_prefix(old.nodes(), self.nodes(), i);
        }
        assert forall|v: u64| #[trigger] old.defs().contains_key(v)
            implies self.env()[v] == old.env()[v] by {
            lemma_term_prefix(old.nodes(), self.nodes(), old.defs()[v] as int);
        }
        assert(self.env() =~= old.env());
    }

    /// `self` was obtained from `old` by allocating nodes only.
    pub open spec fn allocates_from(&self, old: &Graph) -> bool {
        &&& self.grows_from(old)
        &&& old.memo() == self.memo().subrange(0, old.len() as int)
        &&& forall|i: int| old.len() <= i < self.len() ==> (#[trigger] self.memo()[i]) is None
    }

    pub proof fn lemma_grows_trans(&self, mid: &Graph, old: &Graph)
        requires
            self.grows_from(mid),
            mid.grows_from(old),
        ensures
            self.grows_from(old),
    {
        assert(old.nodes() =~= self.nodes().subrange(0, old.len() as int));
    }

    pub proof fn lemma_allocates_trans(&self, mid: &Graph, old: &Graph)
        requires
            self.wf(),
            mid.wf(),
            old.wf(),
            self.allocates_from(mid),
            mid.allocates_from(old),
        ensures
            self.allocates_from(old),
    {
        self.lemma_grows_trans(mid, old);
        assert(old.memo() =~= self.memo().subrange(0, old.len() as int));
        assert forall|i: int| old.len() <= i < self.len() implies (#[trigger] self.memo()[i]) is None by {
            if i < mid.len() {
                assert(self.memo()[i] == self.memo().subrange(0, mid.len() as int)[i]);
            }
        }
    }

    pub proof fn lemma_self(&self)
        requires
            self.wf(),
        ensures
            self.allocates_from(self),
    {
        assert(self.nodes().subrange(0, self.len() as int) =~= self.nodes());
        assert(self.memo().subrange(0, self.len() as int) =~= self.memo());
    }

    /// The outcome `r` of an evaluation, read in this graph.
    pub open spec fn outcome(&self, r: Result<usize, EvalError>) -> Result<Term, EvalError> {
        match r {
            Ok(j) => Ok(self.term(j as int)),
            Err(e) => Err(e),
        }
    }

    /// An empty graph with no bindings.
    pub fn new() -> (g: Graph)
        ensures
            g.wf(),
            g.len() == 0,
            g.defs().is_empty(),
    {
        Graph { nodes: Vec::new(), memo: Vec::new(), defs: HashMap::new() }
    }

    /// The number of nodes.
    pub fn size(&self) -> (r: usize)
        requires
            self.wf(),
        ensures
            r == self.len(),
    {
        self.nodes.len()
    }

    /// Node `i`.
    pub fn node(&self, i: usize) -> (r: Exp)
        requires
            i < self.len(),
        ensures
            r == self.nodes()[i as int],
    {
        self.nodes[i]
    }

    /// The node bound to variable `v`, if any.
    pub fn lookup(&self, v: u64) -> (r: Option<usize>)
        ensures
            r == (if self.defs().contains_key(v) { Some(self.defs()[v]) } else { None }),
    {
        match self.defs.get(&v) {
            Some(i) => Some(*i),
            None => None,
        }
    }

    /// Allocates node `e`, whose children must already exist.
    pub fn push(&mut self, e: Exp) -> (r: usize)
        requires
            old(self).wf(),
            match e {
                Exp::App(f, x) => f < old(self).len() && x < old(self).len(),
                Exp::Atom(_) => true,
            },
        ensures
            final(self).wf(),
            final(self).allocates_from(old(self)),
            final(self).len() == old(self).len() + 1,
            r == old(self).len(),
            final(self).nodes()[r as int] == e,
    {
        let ghost g0 = *self;
        let r = self.nodes.len();
        self.nodes.push(e);
        self.memo.push(None);
        proof {
            assert(g0.nodes() == self.nodes().subrange(0, g0.len() as int));
            self.lemma_grows(&g0);
            assert(g0.memo() == self.memo().subrange(0, g0.len() as int));
            assert forall|i: int|
                0 <= i < self.len() && (#[trigger] self.memo()[i]) is Some implies {
                let j = self.memo()[i]->0;
                &&& j < self.len()
                &&& evaluates(self.env(), self.term(i), Ok(self.term(j as int)))
            } by {
                assert(self.memo()[i] == g0.memo()[i]);
                assert(g0.memo()[i] is Some);
            }
        }
        r
    }

    /// Binds variable `v` to node `i`; only while no memo slot is filled.
    pub fn bind(&mut self, v: u64, i: usize)
        requires
            old(self).wf(),
            old(self).memo_clear(),
            i < old(self).len(),
        ensures
            final(self).wf(),
            final(self).memo_clear(),
            final(self).nodes() == old(self).nodes(),
            final(self).memo() == old(self).memo(),
            final(self).defs() == old(self).defs().insert(v, i),
    {
        self.defs.insert(v, i);
        assert(self.defs() == old(self).defs().insert(v, i));
        assert(forall|w: u64| #[trigger] self.defs().contains_key(w) ==> self.defs()[w] < self.len());
        assert forall|k: int|
            0 <= k < self.len() && (#[trigger] self.memo()[k]) is Some implies false by {
            assert(old(self).memo()[k] is None);
        }
    }

    /// The memo slot of node `i`.
    pub(crate) fn cached(&self, i: usize) -> (r: Option<usize>)
        requires
            i < self.len(),
            self.wf(),
        ensures
            r == self.memo()[i as int],
    {
        self.memo[i]
    }

    /// Records `j` as the normal form of node `i`.
    pub(crate) fn cache(&mut self, i: usize, j: usize)
        requires
            old(self).wf(),
            i < old(self).len(),
            j < old(self).len(),
            evaluates(old(self).env(), old(self).term(i as int), Ok(old(self).term(j as int))),
        ensures
            final(self).wf(),
            final(self).nodes() == old(self).nodes(),
            final(self).defs() == old(self).defs(),
            final(self).memo() == old(self).memo().update(i as int, Some(j)),
    {
        self.memo.set(i, Some(j));
        assert(self.env() =~= old(self).env());
        assert forall|k: int|
            0 <= k < self.len() && (#[trigger] self.memo()[k]) is Some implies {
            let m = self.memo()[k]->0;
            &&& m < self.len()
            &&& evaluates(self.env(), self.term(k), Ok(self.term(m as int)))
        } by {
            if k != i {
                assert(old(self).memo()[k] is Some);
            }
        }
    }
}

impl Exp {
    /// Allocates the application of node `f` to node `x`.
    pub fn app(g: &mut Graph, f: usize, x: usize) -> (r: usize)
        requires
            old(g).wf(),
            f < old(g).len(),
            x < old(g).len(),
        ensures
            final(g).wf(),
            final(g).allocates_from(old(g)),
            final(g).len() == old(g).len() + 1,
            r == old(g).len(),
            final(g).nodes()[r as int] == Exp::App(f, x),
            final(g).term(r as int) == ap(old(g).term(f as int), old(g).term(x as int)),
    {
        let ghost g0 = *g;
        let r = g.push(Exp::App(f, x));
        proof {
            g.lemma_grows(&g0);
            assert(g.term(r as int) == ap(g.term(f as int), g.term(x as int)));
        }
        r
    }

    /// Allocates the pair `cons h t`.
    pub fn cons(g: &mut Graph, c: &mut AtomCache, h: usize, t: usize) -> (r: usize)
        requires
            old(g).wf(),
            old(c).wf(old(g)),
            h < old(g).len(),
            t < old(g).len(),
        ensures
            final(g).wf(),
            final(c).wf(final(g)),
            final(g).allocates_from(old(g)),
            r < final(g).len(),
            final(g).term(r as int) == ap(
                ap(Term::Leaf(Atom::Cons), old(g).term(h as int)),
                old(g).term(t as int),
            ),
            cons_node_of(final(g).nodes(), r as int, h, t),
    {
        let ghost g0 = *g;
        let k = c.get(g, Atom::Cons);
        let ghost g1 = *g;
        proof {
            g.lemma_grows(&g0);
        }
        let p = Exp::app(g, k, h);
        let ghost g2 = *g;
        let r = Exp::app(g, p, t);
        proof {
            g2.lemma_allocates_trans(&g1, &g0);
            g.lemma_allocates_trans(&g2, &g0);
            g.lemma_allocates_trans(&g2, &g1);
            g1.lemma_grows(&g0);
            g2.lemma_grows(&g0);
            g.lemma_grows(&g1);
            c.lemma_keep(&g1, &*g);
            assert(g2.term(p as int) == ap(g1.term(k as int), g1.term(h as int)));
            assert(g1.term(k as int) == Term::Leaf(Atom::Cons));
        }
        r
    }

    /// The integer that the node holds, if it is an integer.
    pub fn to_int(&self) -> (r: Option<i64>)
        ensures
            r == (match *self {
                Exp::Atom(Atom::Int(v)) => Some(v),
                _ => None,
            }),
    {
        match self {
            Exp::Atom(Atom::Int(v)) => Some(*v),
            _ => None,
        }
    }

    /// The head and tail of node `i` when it has the shape `cons h t`.
    pub fn to_cons(g: &Graph, i: usize) -> (r: Option<(usize, usize)>)
        requires
            g.wf(),
            i < g.len(),
        ensures
            match r {
                Some((h, t)) => cons_node_of(g.nodes(), i as int, h, t) && h < i && t < i && split_cons(g.term(i as int)) == Some(
                    (g.term(h as int), g.term(t as int)),
                ) && g.term(i as int) == ap(
                    ap(Term::Leaf(Atom::Cons), g.term(h as int)),
                    g.term(t as int),
                ),
                None => split_cons(g.term(i as int)) is None,
            },
    {
        match g.node(i) {
            Exp::App(p, t) => {
                assert(g.term(i as int) == ap(g.term(p as int), g.term(t as int)));
                match g.node(p) {
                    Exp::App(k, h) => {
                        assert(g.term(p as int) == ap(g.term(k as int), g.term(h as int)));
                        match g.node(k) {
                            Exp::Atom(Atom::Cons) => Some((h, t)),
                            Exp::Atom(_) => None,
                            Exp::App(k1, k2) => {
                                assert(g.term(k as int) == ap(g.term(k1 as int), g.term(k2 as int)));
                                None
                            },
                        }
                    },
                    Exp::Atom(_) => None,
                }
            },
            Exp::Atom(_) => None,
        }
    }

    /// The memo slot of node `i`.
    pub fn get_cached(g: &Graph, i: usize) -> (r: Option<usize>)
        requires
            g.wf(),
            i < g.len(),
        ensures
            r == g.memo()[i as int],
    {
        g.cached(i)
    }

    /// Records `j` as the normal form of node `i`.
    pub fn set_cached(g: &mut Graph, i: usize, j: usize)
        requires
            old(g).wf(),
            i < old(g).len(),
            j < old(g).len(),
            evaluates(old(g).env(), old(g).term(i as int), Ok(old(g).term(j as int))),
        ensures
            final(g).wf(),
            final(g).nodes() == old(g).nodes(),
            final(g).defs() == old(g).defs(),
            final(g).memo() == old(g).memo().update(i as int, Some(j)),
    {
        g.cache(i, j)
    }
}

/// Node `i` is the application of `cons` applied to node `h`, to node `t`.
pub open spec fn cons_node_of(nodes: Seq<Exp>, i: int, h: usize, t: usize) -> bool {
    match nodes[i] {
        Exp::App(p, tt) => tt == t && match nodes[p as int] {
            Exp::App(k, hh) => hh == h && nodes[k as int] == Exp::Atom(Atom::Cons),
            _ => false,
        },
        _ => false,
    }
}

/// The head and tail of a term of the shape `cons h t`.
pub open spec fn split_cons(t: Term) -> Option<(Term, Term)> {
    match t {
        Term::Ap(p, tl) => match *p {
            Term::Ap(k, h) => if *k == Term::Leaf(Atom::Cons) {
                Some((*h, *tl))
            } else {
                None
            },
            _ => None,
        },
        _ => None,
    }
}

/// The slot of the atom cache that holds `a`; integers and variables have none.
pub open spec fn atom_slot(a: Atom) -> int {
    match a {
        Atom::Nil => 0,
        Atom::Int(_) => -1,
        Atom::Var(_) => -1,
        Atom::Bool(b) => if b { 1 } else { 2 },
        Atom::Neg => 3,
        Atom::Inc => 4,
        Atom::Dec => 5,
        Atom::Add => 6,
        Atom::Mul => 7,
        Atom::Div => 8,
        Atom::Eq => 9,
        Atom::Lt => 10,
        Atom::S => 11,
        Atom::I => 12,
        Atom::B => 13,
        Atom::C => 14,
        Atom::Cons => 15,
        Atom::Car => 16,
        Atom::Cdr => 17,
        Atom::IsNil => 18,
        Atom::Galaxy => 19,
    }
}

pub const ATOM_SLOTS: usize = 20;

fn slot_of(a: Atom) -> (r: Option<usize>)
    ensures
        match r {
            Some(k) => k == atom_slot(a) && k < ATOM_SLOTS,
            None => atom_slot(a) == -1,
        },
{
    match a {
        Atom::Nil => Some(0),
        Atom::Int(_) => None,
        Atom::Var(_) => None,
        Atom::Bool(b) => if b { Some(1) } else { Some(2) },
        Atom::Neg => Some(3),
        Atom::Inc => Some(4),
        Atom::Dec => Some(5),
        Atom::Add => Some(6),
        Atom::Mul => Some(7),
        Atom::Div => Some(8),
        Atom::Eq => Some(9),
        Atom::Lt => Some(10),
        Atom::S => Some(11),
        Atom::I => Some(12),
        Atom::B => Some(13),
        Atom::C => Some(14),
        Atom::Cons => Some(15),
        Atom::Car => Some(16),
        Atom::Cdr => Some(17),
        Atom::IsNil => Some(18),
        Atom::Galaxy => Some(19),
    }
}

/// Interns atoms: one node per atom, integers and variables aside.
pub struct AtomCache {
    slots: Vec<Option<usize>>,
}

impl AtomCache {
    pub closed spec fn slots(&self) -> Seq<Option<usize>> {
        self.slots@
    }

    /// Every filled slot names a node of `g` that holds the slot's atom.
    pub open spec fn wf(&self, g: &Graph) -> bool {
        &&& self.slots().len() == ATOM_SLOTS
        &&& forall|a: Atom|
            #![trigger atom_slot(a)]
            atom_slot(a) >= 0 && self.slots()[atom_slot(a)] is Some ==> {
                let i = self.slots()[atom_slot(a)]->0;
                &&& i < g.len()
                &&& g.nodes()[i as int] == Exp::Atom(a)
            }
    }

    /// A cache that stays valid as its graph grows.
    pub proof fn lemma_keep(&self, old: &Graph, g: &Graph)
        requires
            self.wf(old),
            old.len() <= g.len(),
            old.nodes() == g.nodes().subrange(0, old.len() as int),
        ensures
            self.wf(g),
    {
        assert forall|a: Atom|
            #![trigger atom_slot(a)]
            atom_slot(a) >= 0 && self.slots()[atom_slot(a)] is Some implies {
                let i = self.slots()[atom_slot(a)]->0;
                &&& i < g.len()
                &&& g.nodes()[i as int] == Exp::Atom(a)
            } by {
            let i = self.slots()[atom_slot(a)]->0;
            assert(old.nodes()[i as int] == g.nodes().subrange(0, old.len() as int)[i as int]);
        }
    }

    /// An empty cache.
    pub fn new() -> (c: AtomCache)
        ensures
            forall|g: &Graph| c.wf(g),
    {
        let mut slots: Vec<Option<usize>> = Vec::new();
        let mut k: usize = 0;
        while k < ATOM_SLOTS
            invariant
                k <= ATOM_SLOTS,
                slots@.len() == k,
                forall|j: int| 0 <= j < k ==> slots@[j] is None,
            decreases ATOM_SLOTS - k,
        {
            slots.push(None);
            k = k + 1;
        }
        AtomCache { slots }
    }

    /// The node of `atom`: the interned one, allocated on first use; a
    /// fresh node for an integer or a variable.
    pub fn get(&mut self, g: &mut Graph, atom: Atom) -> (r: usize)
        requires
            old(g).wf(),
            old(self).wf(old(g)),
        ensures
            final(g).wf(),
            final(self).wf(final(g)),
            final(g).allocates_from(old(g)),
            r < final(g).len(),
            final(g).nodes()[r as int] == Exp::Atom(atom),
            atom_slot(atom) >= 0 ==> final(self).slots()[atom_slot(atom)] == Some(r),
            atom_slot(atom) < 0 ==> *final(self) == *old(self),
            atom_slot(atom) >= 0 && old(self).slots()[atom_slot(atom)] is Some ==> r == old(
                self,
            ).slots()[atom_slot(atom)]->0 && *final(g) == *old(g),
    {
        let ghost g0 = *g;
        match slot_of(atom) {
            None => g.push(Exp::Atom(atom)),
            Some(k) => match self.slots[k] {
                Some(i) => {
                    assert(g.nodes().subrange(0, g.len() as int) =~= g.nodes());
                    assert(g.memo().subrange(0, g.len() as int) =~= g.memo());
                    i
                },
                None => {
                    let i = g.push(Exp::Atom(atom));
                    proof {
                        self.lemma_keep(&g0, g);
                    }
                    self.slots.set(k, Some(i));
                    assert forall|a: Atom|
                        #![trigger atom_slot(a)]
                        atom_slot(a) >= 0 && self.slots()[atom_slot(a)] is Some implies {
                            let j = self.slots()[atom_slot(a)]->0;
                            &&& j < g.len()
                            &&& g.nodes()[j as int] == Exp::Atom(a)
                        } by {
                        if atom_slot(a) != k {
                        } else {
                            assert(a == atom);
                        }
                    }
                    i
                },
            },
        }
    }
}

/// A plain value: what crosses the boundary of the library as data.
#[derive(Debug, PartialEq, Eq)]
pub enum Value {
    Int(i64),
    Bool(bool),
    Cons(Box<Value>, Box<Value>),
    Var(u64),
    Nil,
}

/// The term of a value.
pub open spec fn value_term(v: Value) -> Term
    decreases v,
{
    match v {
        Value::Int(n) => Term::Leaf(Atom::Int(n)),
        Value::Bool(b) => Term::Leaf(Atom::Bool(b)),
        Value::Var(n) => Term::Leaf(Atom::Var(n)),
        Value::Nil => Term::Leaf(Atom::Nil),
        Value::Cons(h, t) => ap(ap(Term::Leaf(Atom::Cons), value_term(*h)), value_term(*t)),
    }
}

/// Terms that some value denotes.
pub open spec fn is_value_term(t: Term) -> bool
    decreases t,
{
    match t {
        Term::Leaf(a) => a is Int || a is Bool || a is Var || a is Nil,
        Term::Ap(p, tl) => match *p {
            Term::Ap(k, h) => *k == Term::Leaf(Atom::Cons) && is_value_term(*h) && is_value_term(*tl),
            _ => false,
        },
    }
}

impl Value {
    /// Allocates the nodes of this value in `g`.
    pub fn to_exp(&self, g: &mut Graph, c: &mut AtomCache) -> (r: usize)
        requires
            old(g).wf(),
            old(c).wf(old(g)),
        ensures
            final(g).wf(),
            final(c).wf(final(g)),
            final(g).allocates_from(old(g)),
            r < final(g).len(),
            final(g).term(r as int) == value_term(*self),
        decreases *self,
    {
        let ghost g0 = *g;
        match self {
            Value::Int(n) => c.get(g, Atom::Int(*n)),
            Value::Bool(b) => c.get(g, Atom::Bool(*b)),
            Value::Var(n) => c.get(g, Atom::Var(*n)),
            Value::Nil => c.get(g, Atom::Nil),
            Value::Cons(h, t) => {
                let hi = h.to_exp(g, c);
                let ghost g1 = *g;
                let ti = t.to_exp(g, c);
                let ghost g2 = *g;
                let r = Exp::cons(g, c, hi, ti);
                proof {
                    g2.lemma_allocates_trans(&g1, &g0);
                    g.lemma_allocates_trans(&g2, &g0);
                    g2.lemma_grows(&g1);
                }
                r
            },
        }
    }

    /// The value that node `i` denotes, if it denotes one.
    pub fn from_exp(g: &Graph, i: usize) -> (r: Option<Value>)
        requires
            g.wf(),
            i < g.len(),
        ensures
            r is Some <==> is_value_term(g.term(i as int)),
            r matches Some(v) ==> value_term(v) == g.term(i as int),
        decreases i,
    {
        match g.node(i) {
            Exp::Atom(Atom::Int(n)) => Some(Value::Int(n)),
            Exp::Atom(Atom::Bool(b)) => Some(Value::Bool(b)),
            Exp::Atom(Atom::Var(n)) => Some(Value::Var(n)),
            Exp::Atom(Atom::Nil) => Some(Value::Nil),
            Exp::Atom(_) => None,
            Exp::App(p, tl) => {
                assert(g.term(i as int) == ap(g.term(p as int), g.term(tl as int)));
                match g.node(p) {
                    Exp::App(k, h) => {
                        assert(g.term(p as int) == ap(g.term(k as int), g.term(h as int)));
                        match g.node(k) {
                            Exp::Atom(Atom::Cons) => {
                                let hv = match Value::from_exp(g, h) {
                                    Some(v) => v,
                                    None => {
                                        return None;
                                    },
                                };
                                let tv = match Value::from_exp(g, tl) {
                                    Some(v) => v,
                                    None => {
                                        return None;
                                    },
                                };
                                Some(Value::Cons(Box::new(hv), Box::new(tv)))
                            },
                            Exp::Atom(_) => None,
                            Exp::App(k1, k2) => {
                                assert(g.term(k as int) == ap(g.term(k1 as int), g.term(k2 as int)));
                                None
                            },
                        }
                    },
                    Exp::Atom(_) => None,
                }
            },
        }
    }
}

} // verus!
