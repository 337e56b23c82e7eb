//! The decision step of the interaction protocol.
//!
//! `interact` applies the entry function to a state and a vector, reduces
//! the call, and reads the reply `(flag, new state, data)`.  With flag 0
//! the data is for display; otherwise it is to be sent, and the caller
//! hands the answer back through `interact_reply`.  Performing the
//! transport is left to the caller.
use vstd::prelude::*;

use crate::ast::{split_cons, Atom, Exp, Graph, Term};
use crate::eval::eval;
use crate::parse::Protocol;
use crate::semantics::{ap, eval_fuel, evaluates, EvalError};
use crate::transport::{decode, demodulate, is_data, is_data_node, list_bits, modulate, CodecError};

verus! {

/// Why an interaction step failed.
#[derive(Clone, Copy, Debug, PartialEq, Eq, Structural)]
pub enum InteractError {
    /// The entry variable has no binding.
    UnboundEntry,
    /// Reducing the call failed.
    Eval(EvalError),
    /// The answer from the transport is no valid signal.
    Codec(CodecError),
    /// The call did not reduce to `(flag, state, data)` with an integer flag.
    BadResult,
    /// The data to send is not built from `nil`, integers and `cons`.
    NotData,
}

/// What the caller is to do next.
#[derive(Debug)]
pub enum Action {
    /// Flag 0: the interaction is over; show `data` and keep `state`.
    Display { state: usize, data: usize },
    /// Other flag: send `bits` and hand the answer to `interact_reply`
    /// together with `state`.
    Send { state: usize, bits: String },
}

/// The flag, new state and data of a reply `(flag, state, data)`.
pub open spec fn reply_parts(t: Term) -> Option<(i64, Term, Term)> {
    match split_cons(t) {
        Some((f, r1)) => match split_cons(r1) {
            Some((st, r2)) => match split_cons(r2) {
                Some((d, tail)) => match (f, tail) {
                    (Term::Leaf(Atom::Int(flag)), Term::Leaf(Atom::Nil)) => Some((flag, st, d)),
                    _ => None,
                },
                None => None,
            },
            None => None,
        },
        None => None,
    }
}

/// How a reduced reply is read.
pub open spec fn read_reply(t: Term) -> Result<(i64, Term, Term), InteractError> {
    match reply_parts(t) {
        None => Err(InteractError::BadResult),
        Some((flag, st, d)) => if flag != 0 && !is_data(d) {
            Err(InteractError::NotData)
        } else {
            Ok((flag, st, d))
        },
    }
}

/// The call of the entry function on `state` and `vector`.
pub open spec fn entry_call(env: Map<u64, Term>, galaxy: u64, state: Term, vector: Term) -> Term {
    ap(ap(env[galaxy], state), vector)
}

/// `r` is what one interaction step from `state` with `vector` owes, its
/// nodes read in `g`: the reduced call `(flag, new state, data)` read by
/// `read_reply`, or the error met on the way.
pub open spec fn step_outcome(
    env: Map<u64, Term>,
    galaxy: u64,
    state: Term,
    vector: Term,
    r: Result<Action, InteractError>,
    g: Graph,
) -> bool {
    let call = entry_call(env, galaxy, state, vector);
    match r {
        Err(InteractError::UnboundEntry) => !env.contains_key(galaxy),
        Err(InteractError::Eval(e)) => env.contains_key(galaxy) && (if e == EvalError::StepLimit {
            eval_fuel(env, call, u64::MAX as nat) is None
        } else {
            evaluates(env, call, Err(e))
        }),
        Err(InteractError::Codec(_)) => false,
        Err(e) => env.contains_key(galaxy) && exists|t: Term|
            evaluates(env, call, Ok(t)) && read_reply(t) == Err::<(i64, Term, Term), InteractError>(
                e,
            ),
        Ok(Action::Display { state: s, data: d }) => s < g.len() && d < g.len() && env.contains_key(
            galaxy,
        ) && exists|t: Term|
            evaluates(env, call, Ok(t)) && read_reply(t) == Ok::<(i64, Term, Term), InteractError>(
                (0, g.term(s as int), g.term(d as int)),
            ),
        Ok(Action::Send { state: s, bits }) => s < g.len() && env.contains_key(galaxy) && exists|
            t: Term,
            flag: i64,
            d: Term,
        |
            evaluates(env, call, Ok(t)) && read_reply(t) == Ok::<(i64, Term, Term), InteractError>(
                (flag, g.term(s as int), d),
            ) && flag != 0 && bits@ == list_bits(d),
    }
}

/// One interaction step from node `state` with node `vector`.
pub fn interact(p: &mut Protocol, state: usize, vector: usize) -> (r: Result<Action, InteractError>)
    requires
        old(p).wf(),
        state < old(p).graph.len(),
        vector < old(p).graph.len(),
    ensures
        final(p).wf(),
        final(p).graph.grows_from(&old(p).graph),
        final(p).galaxy == old(p).galaxy,
        step_outcome(
            old(p).graph.env(),
            old(p).galaxy,
            old(p).graph.term(state as int),
            old(p).graph.term(vector as int),
            r,
            final(p).graph,
        ),
{
    let ghost g0 = p.graph;
    let ghost env = g0.env();
    proof {
        p.graph.lemma_self();
    }
    let entry = match p.graph.lookup(p.galaxy) {
        Some(e) => e,
        None => {
            return Err(InteractError::UnboundEntry);
        },
    };
    let f = Exp::app(&mut p.graph, entry, state);
    let ghost g1 = p.graph;
    let call = Exp::app(&mut p.graph, f, vector);
    let ghost g2 = p.graph;
    proof {
        g2.lemma_allocates_trans(&g1, &g0);
        g1.lemma_grows(&g0);
        g2.lemma_grows(&g0);
        p.atoms.lemma_keep(&g0, &g2);
        assert(g2.term(call as int) == entry_call(
            env,
            p.galaxy,
            g0.term(state as int),
            g0.term(vector as int),
        ));
    }
    let r = match eval(&mut p.graph, &mut p.atoms, call) {
        Ok(r) => r,
        Err(e) => {
            proof {
                p.graph.lemma_grows_trans(&g2, &g0);
            }
            return Err(InteractError::Eval(e));
        },
    };
    proof {
        p.graph.lemma_grows_trans(&g2, &g0);
        p.graph.lemma_grows(&g0);
    }
    let ghost t = p.graph.term(r as int);
    assert(evaluates(env, g2.term(call as int), Ok(t)));
    let g = &p.graph;
    let (flag, rest) = match Exp::to_cons(g, r) {
        Some(x) => x,
        None => {
            return Err(InteractError::BadResult);
        },
    };
    let (st, rest2) = match Exp::to_cons(g, rest) {
        Some(x) => x,
        None => {
            return Err(InteractError::BadResult);
        },
    };
    let (data, tail) = match Exp::to_cons(g, rest2) {
        Some(x) => x,
        None => {
            return Err(InteractError::BadResult);
        },
    };
    let fv = match g.node(flag) {
        Exp::Atom(Atom::Int(v)) => v,
        Exp::Atom(_) => {
            return Err(InteractError::BadResult);
        },
        Exp::App(a, b) => {
            assert(g.term(flag as int) == ap(g.term(a as int), g.term(b as int)));
            return Err(InteractError::BadResult);
        },
    };
    match g.node(tail) {
        Exp::Atom(Atom::Nil) => {},
        Exp::Atom(_) => {
            return Err(InteractError::BadResult);
        },
        Exp::App(a, b) => {
            assert(g.term(tail as int) == ap(g.term(a as int), g.term(b as int)));
            return Err(InteractError::BadResult);
        },
    }
    assert(g.term(flag as int) == Term::Leaf(Atom::Int(fv)));
    assert(g.term(tail as int) == Term::Leaf(Atom::Nil));
    assert(reply_parts(t) == Some((fv, g.term(st as int), g.term(data as int))));
    if fv == 0 {
        assert(read_reply(t) == Ok::<(i64, Term, Term), InteractError>(
            (0, g.term(st as int), g.term(data as int)),
        ));
        return Ok(Action::Display { state: st, data });
    }
    if !is_data_node(g, data) {
        return Err(InteractError::NotData);
    }
    let bits = modulate(g, data);
    assert(read_reply(t) == Ok::<(i64, Term, Term), InteractError>(
        (fv, g.term(st as int), g.term(data as int)),
    ));
    Ok(Action::Send { state: st, bits })
}

/// One interaction step that goes on from a `Send`: `reply` is the
/// answer of the transport, read as the next vector.
pub fn interact_reply(p: &mut Protocol, state: usize, reply: &str) -> (r: Result<Action, InteractError>)
    requires
        old(p).wf(),
        state < old(p).graph.len(),
    ensures
        final(p).wf(),
        final(p).graph.grows_from(&old(p).graph),
        final(p).galaxy == old(p).galaxy,
        match decode(reply@) {
            Err(e) => r == Err::<Action, InteractError>(InteractError::Codec(e)),
            Ok(v) => step_outcome(
                old(p).graph.env(),
                old(p).galaxy,
                old(p).graph.term(state as int),
                v,
                r,
                final(p).graph,
            ),
        },
{
    let ghost g0 = p.graph;
    let v = match demodulate(reply, &mut p.graph, &mut p.atoms) {
        Ok(v) => v,
        Err(e) => {
            return Err(InteractError::Codec(e));
        },
    };
    let ghost g1 = p.graph;
    proof {
        g1.lemma_grows(&g0);
    }
    let r = interact(p, state, v);
    proof {
        p.graph.lemma_grows_trans(&g1, &g0);
    }
    r
}

} // verus!
