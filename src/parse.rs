//! Recursive-descent parsing of token streams into the expression graph.
//!
//! ```text
//! protocol   ::= { binding } "galaxy" "=" Var
//! binding    ::= Var "=" exp
//! exp        ::= "ap" exp exp | atom
//! test-suite ::= { exp "=" exp }
//! ```
use vstd::prelude::*;

use crate::ast::{Atom, AtomCache, Exp, Graph, Term};
use crate::semantics::{ap, leaf};
use crate::token::Token;

verus! {

/// Why a token stream is not a protocol or a test suite.
#[derive(Clone, Copy, Debug, PartialEq, Eq, Structural)]
pub enum ParseError {
    /// The tokens end inside a construct.
    UnexpectedEnd,
    /// A token of the wrong kind.
    UnexpectedToken,
    /// Another token where `=` belongs.
    MissingAssign,
}

/// The atom that a token stands for; `ap` and `=` stand for none.
pub open spec fn token_atom(t: Token) -> Option<Atom> {
    match t {
        Token::Var(v) => Some(Atom::Var(v)),
        Token::Int(v) => Some(Atom::Int(v)),
        Token::Bool(b) => Some(Atom::Bool(b)),
        Token::Inc => Some(Atom::Inc),
        Token::Dec => Some(Atom::Dec),
        Token::Neg => Some(Atom::Neg),
        Token::Add => Some(Atom::Add),
        Token::Mul => Some(Atom::Mul),
        Token::Div => Some(Atom::Div),
        Token::Eq => Some(Atom::Eq),
        Token::Lt => Some(Atom::Lt),
        Token::S => Some(Atom::S),
        Token::C => Some(Atom::C),
        Token::B => Some(Atom::B),
        Token::I => Some(Atom::I),
        Token::Cons => Some(Atom::Cons),
        Token::Car => Some(Atom::Car),
        Token::Cdr => Some(Atom::Cdr),
        Token::Nil => Some(Atom::Nil),
        Token::IsNil => Some(Atom::IsNil),
        Token::Galaxy => Some(Atom::Galaxy),
        Token::App => None,
        Token::Assign => None,
    }
}

/// The expression that starts at token `k`, and the position after it.
pub open spec fn parse_exp(ts: Seq<Token>, k: int) -> Result<(Term, int), ParseError>
    decreases ts.len() - k,
{
    if k < 0 || k >= ts.len() {
        Err(ParseError::UnexpectedEnd)
    } else if ts[k] == Token::App {
        match parse_exp(ts, k + 1) {
            Err(e) => Err(e),
            Ok((f, k1)) => if k < k1 <= ts.len() {
                match parse_exp(ts, k1) {
                    Err(e) => Err(e),
                    Ok((x, k2)) => Ok((ap(f, x), k2)),
                }
            } else {
                Err(ParseError::UnexpectedEnd)
            },
        }
    } else {
        match token_atom(ts[k]) {
            Some(a) => Ok((leaf(a), k + 1)),
            None => Err(ParseError::UnexpectedToken),
        }
    }
}

/// `=` at token `k`.
pub open spec fn assign_at(ts: Seq<Token>, k: int) -> Result<(), ParseError> {
    if k >= ts.len() {
        Err(ParseError::UnexpectedEnd)
    } else if ts[k] != Token::Assign {
        Err(ParseError::MissingAssign)
    } else {
        Ok(())
    }
}

/// The bindings from token `k` on, and the entry variable that ends them.
pub open spec fn parse_bindings(ts: Seq<Token>, k: int) -> Result<(Seq<(u64, Term)>, u64), ParseError>
    decreases ts.len() - k,
{
    if k < 0 || k >= ts.len() {
        Err(ParseError::UnexpectedEnd)
    } else {
        match ts[k] {
            Token::Galaxy => match assign_at(ts, k + 1) {
                Err(e) => Err(e),
                Ok(_) => if k + 2 >= ts.len() {
                    Err(ParseError::UnexpectedEnd)
                } else {
                    match ts[k + 2] {
                        Token::Var(v) => Ok((Seq::empty(), v)),
                        _ => Err(ParseError::UnexpectedToken),
                    }
                },
            },
            Token::Var(v) => match assign_at(ts, k + 1) {
                Err(e) => Err(e),
                Ok(_) => match parse_exp(ts, k + 2) {
                    Err(e) => Err(e),
                    Ok((t, k2)) => if k < k2 <= ts.len() {
                        match parse_bindings(ts, k2) {
                            Err(e) => Err(e),
                            Ok((bs, entry)) => Ok((seq![(v, t)] + bs, entry)),
                        }
                    } else {
                        Err(ParseError::UnexpectedEnd)
                    },
                },
            },
            _ => Err(ParseError::UnexpectedToken),
        }
    }
}

/// The environment that a list of bindings makes; a later binding of a
/// variable replaces an earlier one.
pub open spec fn bindings_map(bs: Seq<(u64, Term)>) -> Map<u64, Term>
    decreases bs.len(),
{
    if bs.len() == 0 {
        Map::empty()
    } else {
        bindings_map(bs.drop_last()).insert(bs.last().0, bs.last().1)
    }
}

/// The equalities from token `k` on.
pub open spec fn parse_tests(ts: Seq<Token>, k: int) -> Result<Seq<(Term, Term)>, ParseError>
    decreases ts.len() - k,
{
    if k < 0 || k >= ts.len() {
        Ok(Seq::empty())
    } else {
        match parse_exp(ts, k) {
            Err(e) => Err(e),
            Ok((l, k1)) => match assign_at(ts, k1) {
                Err(e) => Err(e),
                Ok(_) => match parse_exp(ts, k1 + 1) {
                    Err(e) => Err(e),
                    Ok((r, k2)) => if k < k2 <= ts.len() {
                        match parse_tests(ts, k2) {
                            Err(e) => Err(e),
                            Ok(rest) => Ok(seq![(l, r)] + rest),
                        }
                    } else {
                        Err(ParseError::UnexpectedEnd)
                    },
                },
            },
        }
    }
}

/// A parsed protocol: the expression graph holding the bindings, its atom
/// cache, and the entry variable.
pub struct Protocol {
    pub graph: Graph,
    pub atoms: AtomCache,
    pub galaxy: u64,
}

impl Protocol {
    pub open spec fn wf(&self) -> bool {
        self.graph.wf() && self.atoms.wf(&self.graph)
    }
}

/// A parsed test suite: the graph and the node pairs that should be equal.
pub struct TestSuite {
    pub graph: Graph,
    pub atoms: AtomCache,
    pub equals: Vec<(usize, usize)>,
}

/// The atom of token `t`.
fn atom_of(t: Token) -> (r: Option<Atom>)
    ensures
        r == token_atom(t),
{
    match t {
        Token::Var(v) => Some(Atom::Var(v)),
        Token::Int(v) => Some(Atom::Int(v)),
        Token::Bool(b) => Some(Atom::Bool(b)),
        Token::Inc => Some(Atom::Inc),
        Token::Dec => Some(Atom::Dec),
        Token::Neg => Some(Atom::Neg),
        Token::Add => Some(Atom::Add),
        Token::Mul => Some(Atom::Mul),
        Token::Div => Some(Atom::Div),
        Token::Eq => Some(Atom::Eq),
        Token::Lt => Some(Atom::Lt),
        Token::S => Some(Atom::S),
        Token::C => Some(Atom::C),
        Token::B => Some(Atom::B),
        Token::I => Some(Atom::I),
        Token::Cons => Some(Atom::Cons),
        Token::Car => Some(Atom::Car),
        Token::Cdr => Some(Atom::Cdr),
        Token::Nil => Some(Atom::Nil),
        Token::IsNil => Some(Atom::IsNil),
        Token::Galaxy => Some(Atom::Galaxy),
        Token::App => None,
        Token::Assign => None,
    }
}

/// Parses the expression at token `k` into `g`: its node and the position after it.
pub fn exp(tokens: &Vec<Token>, k: usize, g: &mut Graph, c: &mut AtomCache) -> (r: Result<
    (usize, usize),
    ParseError,
>)
    requires
        old(g).wf(),
        old(c).wf(old(g)),
    ensures
        final(g).wf(),
        final(c).wf(final(g)),
        final(g).allocates_from(old(g)),
        match r {
            Ok((i, end)) => i < final(g).len() && parse_exp(tokens@, k as int) == Ok::<
                (Term, int),
                ParseError,
            >((final(g).term(i as int), end as int)),
            Err(e) => parse_exp(tokens@, k as int) == Err::<(Term, int), ParseError>(e),
        },
    decreases tokens@.len() - k,
{
    let ghost g0 = *g;
    proof {
        g.lemma_self();
    }
    if k >= tokens.len() {
        return Err(ParseError::UnexpectedEnd);
    }
    let t = tokens[k];
    if t == Token::App {
        let (f, k1) = match exp(tokens, k + 1, g, c) {
            Ok(p) => p,
            Err(e) => {
                return Err(e);
            },
        };
        let ghost g1 = *g;
        if !(k < k1 && k1 <= tokens.len()) {
            return Err(ParseError::UnexpectedEnd);
        }
        let (x, k2) = match exp(tokens, k1, g, c) {
            Ok(p) => p,
            Err(e) => {
                proof {
                    g.lemma_allocates_trans(&g1, &g0);
                }
                return Err(e);
            },
        };
        let ghost g2 = *g;
        let i = Exp::app(g, f, x);
        proof {
            g2.lemma_allocates_trans(&g1, &g0);
            g.lemma_allocates_trans(&g2, &g0);
            g2.lemma_grows(&g1);
            c.lemma_keep(&g2, &*g);
        }
        return Ok((i, k2));
    }
    match atom_of(t) {
        Some(a) => {
            let i = c.get(g, a);
            Ok((i, k + 1))
        },
        None => Err(ParseError::UnexpectedToken),
    }
}

/// `=` at token `k`.
fn assign(tokens: &Vec<Token>, k: usize) -> (r: Result<(), ParseError>)
    ensures
        r == assign_at(tokens@, k as int),
{
    if k >= tokens.len() {
        Err(ParseError::UnexpectedEnd)
    } else if tokens[k] != Token::Assign {
        Err(ParseError::MissingAssign)
    } else {
        Ok(())
    }
}

/// The bindings `pre` followed by the outcome `r`.
pub open spec fn after_bindings(
    pre: Seq<(u64, Term)>,
    r: Result<(Seq<(u64, Term)>, u64), ParseError>,
) -> Result<(Seq<(u64, Term)>, u64), ParseError> {
    match r {
        Ok((bs, entry)) => Ok((pre + bs, entry)),
        Err(e) => Err(e),
    }
}

/// Parses a protocol: its bindings, in order, then `galaxy = <var>`.
/// Tokens after the entry line are not read.
pub fn interaction_protocol(tokens: &Vec<Token>) -> (r: Result<Protocol, ParseError>)
    ensures
        match r {
            Ok(p) => p.wf() && p.graph.memo_clear() && exists|bs: Seq<(u64, Term)>|
                parse_bindings(tokens@, 0) == Ok::<(Seq<(u64, Term)>, u64), ParseError>(
                    (bs, p.galaxy),
                ) && p.graph.env() == bindings_map(bs),
            Err(e) => parse_bindings(tokens@, 0) is Err && parse_bindings(tokens@, 0)->Err_0 == e,
        },
{
    let mut g = Graph::new();
    let mut c = AtomCache::new();
    let mut k: usize = 0;
    let ghost mut bs: Seq<(u64, Term)> = Seq::empty();
    proof {
        assert(g.env() =~= bindings_map(bs));
        match parse_bindings(tokens@, 0) {
            Ok((rest, entry)) => assert(bs + rest =~= rest),
            Err(_) => {},
        }
    }
    loop
        invariant
            g.wf(),
            c.wf(&g),
            g.memo_clear(),
            k <= tokens@.len(),
            g.env() == bindings_map(bs),
            parse_bindings(tokens@, 0) == after_bindings(bs, parse_bindings(tokens@, k as int)),
        decreases tokens@.len() - k,
    {
        if k >= tokens.len() {
            return Err(ParseError::UnexpectedEnd);
        }
        match tokens[k] {
            Token::Galaxy => {
                if let Err(e) = assign(tokens, k + 1) {
                    return Err(e);
                }
                if k + 2 >= tokens.len() {
                    return Err(ParseError::UnexpectedEnd);
                }
                match tokens[k + 2] {
                    Token::Var(v) => {
                        proof {
                            assert(bs + Seq::<(u64, Term)>::empty() =~= bs);
                        }
                        return Ok(Protocol { graph: g, atoms: c, galaxy: v });
                    },
                    _ => {
                        return Err(ParseError::UnexpectedToken);
                    },
                }
            },
            Token::Var(v) => {
                if let Err(e) = assign(tokens, k + 1) {
                    return Err(e);
                }
                let ghost g0 = g;
                let (i, k2) = match exp(tokens, k + 2, &mut g, &mut c) {
                    Ok(p) => p,
                    Err(e) => {
                        return Err(e);
                    },
                };
                if !(k < k2 && k2 <= tokens.len()) {
                    return Err(ParseError::UnexpectedEnd);
                }
                proof {
                    g.lemma_grows(&g0);
                    assert forall|j: int| 0 <= j < g.memo().len() implies (#[trigger] g.memo()[j]) is None by {
                        if j < g0.len() {
                            assert(g.memo()[j] == g.memo().subrange(0, g0.len() as int)[j]);
                        }
                    }
                }
                let ghost t = g.term(i as int);
                let ghost g1 = g;
                g.bind(v, i);
                proof {
                    assert(g.nodes() =~= g1.nodes());
                    assert(g.env() =~= g1.env().insert(v, t));
                    let nb = bs.push((v, t));
                    assert(nb.drop_last() =~= bs);
                    match parse_bindings(tokens@, k2 as int) {
                        Ok((rest, entry)) => assert(bs + (seq![(v, t)] + rest) =~= nb + rest),
                        Err(_) => {},
                    }
                    bs = nb;
                    assert(g.nodes().subrange(0, g1.len() as int) =~= g.nodes());
                    c.lemma_keep(&g1, &g);
                }
                k = k2;
            },
            _ => {
                return Err(ParseError::UnexpectedToken);
            },
        }
    }
}

/// Parses a test suite: a sequence of `exp = exp` equalities.
pub fn test_suite(tokens: &Vec<Token>) -> (r: Result<TestSuite, ParseError>)
    ensures
        match r {
            Ok(ts) => ts.graph.wf() && ts.atoms.wf(&ts.graph) && (forall|j: int|
                0 <= j < ts.equals@.len() ==> (#[trigger] ts.equals@[j]).0 < ts.graph.len()
                    && ts.equals@[j].1 < ts.graph.len()) && parse_tests(tokens@, 0) == Ok::<
                Seq<(Term, Term)>,
                ParseError,
            >(
                ts.equals@.map_values(
                    |p: (usize, usize)| (ts.graph.term(p.0 as int), ts.graph.term(p.1 as int)),
                ),
            ),
            Err(e) => parse_tests(tokens@, 0) == Err::<Seq<(Term, Term)>, ParseError>(e),
        },
{
    let mut g = Graph::new();
    let mut c = AtomCache::new();
    let mut equals: Vec<(usize, usize)> = Vec::new();
    let mut k: usize = 0;
    loop
        invariant
            g.wf(),
            c.wf(&g),
            k <= tokens@.len(),
            forall|j: int|
                0 <= j < equals@.len() ==> (#[trigger] equals@[j]).0 < g.len() && equals@[j].1
                    < g.len(),
            parse_tests(tokens@, 0) == (match parse_tests(tokens@, k as int) {
                Ok(rest) => Ok(
                    equals@.map_values(
                        |p: (usize, usize)| (g.term(p.0 as int), g.term(p.1 as int)),
                    ) + rest,
                ),
                Err(e) => Err(e),
            }),
        decreases tokens@.len() - k,
    {
        let ghost g0 = g;
        let ghost before = equals@.map_values(
            |p: (usize, usize)| (g0.term(p.0 as int), g0.term(p.1 as int)),
        );
        if k >= tokens.len() {
            proof {
                assert(before + Seq::<(Term, Term)>::empty() =~= before);
            }
            return Ok(TestSuite { graph: g, atoms: c, equals });
        }
        let (l, k1) = match exp(tokens, k, &mut g, &mut c) {
            Ok(p) => p,
            Err(e) => {
                return Err(e);
            },
        };
        if let Err(e) = assign(tokens, k1) {
            return Err(e);
        }
        let ghost g1 = g;
        let (rt, k2) = match exp(tokens, k1 + 1, &mut g, &mut c) {
            Ok(p) => p,
            Err(e) => {
                return Err(e);
            },
        };
        if !(k < k2 && k2 <= tokens.len()) {
            return Err(ParseError::UnexpectedEnd);
        }
        proof {
            g.lemma_allocates_trans(&g1, &g0);
            g.lemma_grows(&g0);
            g.lemma_grows(&g1);
        }
        equals.push((l, rt));
        proof {
            let after = equals@.map_values(
                |p: (usize, usize)| (g.term(p.0 as int), g.term(p.1 as int)),
            );
            assert(after =~= before.push((g.term(l as int), g.term(rt as int))));
            match parse_tests(tokens@, k2 as int) {
                Ok(rest) => assert(before + (seq![(g.term(l as int), g.term(rt as int))] + rest)
                    =~= after + rest),
                Err(_) => {},
            }
        }
        k = k2;
    }
}

} // verus!
