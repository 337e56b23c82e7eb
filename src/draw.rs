//! Reading images out of a reduced expression: a list of frames, each a
//! list of points `cons x y`.
use vstd::prelude::*;

use crate::ast::{Atom, Exp, Graph, Term};
use crate::semantics::ap;

verus! {

/// A layer that is not a list of pairs of integers.
#[derive(Clone, Copy, Debug, PartialEq, Eq, Structural)]
pub enum ImageError {
    BadStructure,
}

/// The integer of a term, if it is one.
pub open spec fn int_term(t: Term) -> Option<i64> {
    match t {
        Term::Leaf(Atom::Int(v)) => Some(v),
        _ => None,
    }
}

/// The point `cons x y`.
pub open spec fn point_of(t: Term) -> Option<(i64, i64)> {
    match t {
        Term::Ap(p, y) => match *p {
            Term::Ap(k, x) => if *k == Term::Leaf(Atom::Cons) && int_term(*x) is Some && int_term(
                *y,
            ) is Some {
                Some((int_term(*x)->0, int_term(*y)->0))
            } else {
                None
            },
            _ => None,
        },
        _ => None,
    }
}

/// The points of a list of points.
pub open spec fn points_of(t: Term) -> Option<Seq<(i64, i64)>>
    decreases t,
{
    match t {
        Term::Leaf(Atom::Nil) => Some(Seq::empty()),
        Term::Ap(p, tl) => match *p {
            Term::Ap(k, h) => if *k == Term::Leaf(Atom::Cons) {
                match (point_of(*h), points_of(*tl)) {
                    (Some(pt), Some(rest)) => Some(seq![pt] + rest),
                    _ => None,
                }
            } else {
                None
            },
            _ => None,
        },
        _ => None,
    }
}

/// The frames of a list of frames.
pub open spec fn frames_of(t: Term) -> Option<Seq<Seq<(i64, i64)>>>
    decreases t,
{
    match t {
        Term::Leaf(Atom::Nil) => Some(Seq::empty()),
        Term::Ap(p, tl) => match *p {
            Term::Ap(k, h) => if *k == Term::Leaf(Atom::Cons) {
                match (points_of(*h), frames_of(*tl)) {
                    (Some(f), Some(rest)) => Some(seq![f] + rest),
                    _ => None,
                }
            } else {
                None
            },
            _ => None,
        },
        _ => None,
    }
}

/// The integer that node `i` holds.
fn extract_int(g: &Graph, i: usize) -> (r: Option<i64>)
    requires
        g.wf(),
        i < g.len(),
    ensures
        r == int_term(g.term(i as int)),
{
    match g.node(i) {
        Exp::Atom(Atom::Int(v)) => Some(v),
        Exp::Atom(_) => None,
        Exp::App(f, x) => {
            assert(g.term(i as int) == ap(g.term(f as int), g.term(x as int)));
            None
        },
    }
}

/// Appends the point that node `i` holds to `frame`.
fn draw_point_exp(g: &Graph, i: usize, frame: &mut Vec<(i64, i64)>) -> (r: Result<(), ImageError>)
    requires
        g.wf(),
        i < g.len(),
    ensures
        match r {
            Ok(()) => point_of(g.term(i as int)) is Some && final(frame)@ == old(frame)@.push(
                point_of(g.term(i as int))->0,
            ),
            Err(_) => point_of(g.term(i as int)) is None,
        },
{
    let (x, y) = match Exp::to_cons(g, i) {
        Some(p) => p,
        None => {
            return Err(ImageError::BadStructure);
        },
    };
    match (extract_int(g, x), extract_int(g, y)) {
        (Some(a), Some(b)) => {
            frame.push((a, b));
            Ok(())
        },
        _ => Err(ImageError::BadStructure),
    }
}

/// Appends the points of the list at node `i` to `frame`.
fn draw_exp(g: &Graph, i: usize, frame: &mut Vec<(i64, i64)>) -> (r: Result<(), ImageError>)
    requires
        g.wf(),
        i < g.len(),
    ensures
        match r {
            Ok(()) => points_of(g.term(i as int)) is Some && final(frame)@ == old(frame)@ + points_of(
                g.term(i as int),
            )->0,
            Err(_) => points_of(g.term(i as int)) is None,
        },
    decreases i,
{
    if let Exp::Atom(Atom::Nil) = g.node(i) {
        assert(frame@ + Seq::<(i64, i64)>::empty() =~= frame@);
        return Ok(());
    }
    let (point, rest) = match Exp::to_cons(g, i) {
        Some(p) => p,
        None => {
            proof {
                match g.nodes()[i as int] {
                    Exp::App(f, x) => assert(g.term(i as int) == ap(
                        g.term(f as int),
                        g.term(x as int),
                    )),
                    _ => {},
                }
            }
            return Err(ImageError::BadStructure);
        },
    };
    let ghost f0 = frame@;
    draw_point_exp(g, point, frame)?;
    draw_exp(g, rest, frame)?;
    proof {
        let pt = point_of(g.term(point as int))->0;
        assert(f0.push(pt) + points_of(g.term(rest as int))->0 =~= f0 + (seq![pt] + points_of(
            g.term(rest as int),
        )->0));
    }
    Ok(())
}

/// Appends the frames of the list at node `i` to `buffer`.
pub fn multidraw_exp(g: &Graph, i: usize, buffer: &mut Vec<Vec<(i64, i64)>>) -> (r: Result<
    (),
    ImageError,
>)
    requires
        g.wf(),
        i < g.len(),
    ensures
        match r {
            Ok(()) => frames_of(g.term(i as int)) is Some && final(buffer)@.len() == old(buffer)@.len()
                + frames_of(g.term(i as int))->0.len() && (forall|k: int|
                0 <= k < old(buffer)@.len() ==> #[trigger] final(buffer)@[k] == old(buffer)@[k])
                && (forall|k: int|
                0 <= k < frames_of(g.term(i as int))->0.len() ==> #[trigger] final(buffer)@[old(
                buffer)@.len() + k]@ == frames_of(g.term(i as int))->0[k]),
            Err(_) => frames_of(g.term(i as int)) is None,
        },
    decreases i,
{
    if let Exp::Atom(Atom::Nil) = g.node(i) {
        return Ok(());
    }
    let (points, rest) = match Exp::to_cons(g, i) {
        Some(p) => p,
        None => {
            proof {
                match g.nodes()[i as int] {
                    Exp::App(f, x) => assert(g.term(i as int) == ap(
                        g.term(f as int),
                        g.term(x as int),
                    )),
                    _ => {},
                }
            }
            return Err(ImageError::BadStructure);
        },
    };
    let mut frame: Vec<(i64, i64)> = Vec::new();
    draw_exp(g, points, &mut frame)?;
    assert(frame@ =~= points_of(g.term(points as int))->0);
    let ghost b0 = buffer@;
    buffer.push(frame);
    let ghost b1 = buffer@;
    multidraw_exp(g, rest, buffer)?;
    proof {
        let all = frames_of(g.term(i as int))->0;
        let tail = frames_of(g.term(rest as int))->0;
        assert(all =~= seq![points_of(g.term(points as int))->0] + tail);
        assert forall|k: int| 0 <= k < all.len() implies #[trigger] buffer@[b0.len() + k]@ == all[k] by {
            if k == 0 {
                assert(buffer@[b0.len() as int] == b1[b0.len() as int]);
            } else {
                assert(buffer@[b1.len() + (k - 1)]@ == tail[k - 1]);
            }
        }
        assert forall|k: int| 0 <= k < b0.len() implies #[trigger] buffer@[k] == b0[k] by {
            assert(buffer@[k] == b1[k]);
        }
    }
    Ok(())
}

} // verus!
