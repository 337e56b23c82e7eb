//! The evaluator: normal-order reduction over the expression graph, with
//! a memo slot per node.  Each function returns, besides its result, the
//! number of rounds under which the spec functions of
//! [`crate::semantics`] reach the same result.
use vstd::prelude::*;

use crate::ast::{Atom, AtomCache, Exp, Graph, Term};
use crate::semantics::{
    ap, app1, app2, app3, arith, binary, eval_fuel, evaluates, is_arith, leaf, lemma_app2_mono,
    lemma_app3_mono, lemma_binary_mono, lemma_eval_det, lemma_step_det, lemma_eval_idempotent, lemma_eval_mono, lemma_step_back,
    lemma_step_fails, lemma_step_fixed, lemma_unary_mono, step, ternary, trunc_div, unary, EvalError,
};

verus! {

/// Whether nodes `i` and `j` denote the same term.
pub fn term_eq(g: &Graph, i: usize, j: usize) -> (r: bool)
    requires
        g.wf(),
        i < g.len(),
        j < g.len(),
    ensures
        r == (g.term(i as int) == g.term(j as int)),
    decreases i + j,
{
    if i == j {
        return true;
    }
    match (g.node(i), g.node(j)) {
        (Exp::Atom(a), Exp::Atom(b)) => a == b,
        (Exp::App(f1, x1), Exp::App(f2, x2)) => {
            assert(g.term(i as int) == ap(g.term(f1 as int), g.term(x1 as int)));
            assert(g.term(j as int) == ap(g.term(f2 as int), g.term(x2 as int)));
            term_eq(g, f1, f2) && term_eq(g, x1, x2)
        },
        (Exp::Atom(_), Exp::App(f2, x2)) => {
            assert(g.term(j as int) == ap(g.term(f2 as int), g.term(x2 as int)));
            false
        },
        (Exp::App(f1, x1), Exp::Atom(_)) => {
            assert(g.term(i as int) == ap(g.term(f1 as int), g.term(x1 as int)));
            false
        },
    }
}

/// Division rounded toward zero, wrapping on `i64::MIN / -1`.
fn div_trunc(p: i64, q: i64) -> (r: i64)
    requires
        q != 0,
    ensures
        r == trunc_div(p, q),
{
    let pa: i128 = p as i128;
    let qa: i128 = q as i128;
    let ma: u128 = if pa < 0 { (-pa) as u128 } else { pa as u128 };
    let mb: u128 = if qa < 0 { (-qa) as u128 } else { qa as u128 };
    let quo: u128 = ma / mb;
    assert(quo <= ma) by (nonlinear_arith)
        requires
            quo == ma / mb,
            mb >= 1,
    ;
    let s: i128 = if (p < 0) != (q < 0) { -(quo as i128) } else { quo as i128 };
    if s > i64::MAX as i128 {
        i64::MIN
    } else {
        s as i64
    }
}

/// The result of an integer operator, as a node.
fn arith_node(g: &mut Graph, c: &mut AtomCache, a: Atom, p: i64, q: i64) -> (r: Result<usize, EvalError>)
    requires
        old(g).wf(),
        old(c).wf(old(g)),
        is_arith(a),
    ensures
        final(g).wf(),
        final(c).wf(final(g)),
        final(g).allocates_from(old(g)),
        r is Ok ==> r->Ok_0 < final(g).len(),
        final(g).outcome(r) == arith(a, p, q),
{
    let atom = match a {
        Atom::Add => Atom::Int(p.wrapping_add(q)),
        Atom::Mul => Atom::Int(p.wrapping_mul(q)),
        Atom::Div => {
            if q == 0 {
                proof {
                    g.lemma_self();
                }
                return Err(EvalError::DivByZero);
            }
            Atom::Int(div_trunc(p, q))
        },
        Atom::Lt => Atom::Bool(p < q),
        _ => Atom::Bool(p == q),
    };
    Ok(c.get(g, atom))
}

/// Records `j` as the normal form of node `i`.
fn remember(g: &mut Graph, c: &AtomCache, i: usize, j: usize)
    requires
        old(g).wf(),
        c.wf(old(g)),
        i < old(g).len(),
        j < old(g).len(),
        evaluates(old(g).env(), old(g).term(i as int), Ok(old(g).term(j as int))),
    ensures
        final(g).wf(),
        c.wf(final(g)),
        final(g).grows_from(old(g)),
        final(g).nodes() == old(g).nodes(),
        final(g).memo() == old(g).memo().update(i as int, Some(j)),
{
    let ghost g0 = *g;
    g.cache(i, j);
    proof {
        assert(g.nodes().subrange(0, g.len() as int) =~= g.nodes());
        c.lemma_keep(&g0, &*g);
    }
}

/// Evaluates node `i` to a normal form, consulting and filling memo slots.
fn eval_node(g: &mut Graph, c: &mut AtomCache, i: usize, budget: u64) -> (r: (
    Result<usize, EvalError>,
    Ghost<nat>,
))
    requires
        old(g).wf(),
        old(c).wf(old(g)),
        i < old(g).len(),
    ensures
        final(g).wf(),
        final(c).wf(final(g)),
        final(g).grows_from(old(g)),
        r.0 is Ok ==> r.0->Ok_0 < final(g).len(),
        r.0 != Err::<usize, EvalError>(EvalError::StepLimit) ==> eval_fuel(
            old(g).env(),
            old(g).term(i as int),
            r.1@,
        ) == Some(final(g).outcome(r.0)),
        r.0 == Err::<usize, EvalError>(EvalError::StepLimit) ==> eval_fuel(
            old(g).env(),
            old(g).term(i as int),
            budget as nat,
        ) is None,
        r.0 matches Ok(j) ==> final(g).memo()[i as int] == Some(j),
    decreases budget, 0nat,
{
    let ghost g0 = *g;
    let ghost env = g0.env();
    let ghost ti = g0.term(i as int);
    if let Some(j) = g.cached(i) {
        let ghost n = choose|n: nat| eval_fuel(env, ti, n) == Some(Ok::<Term, EvalError>(g.term(j as int)));
        proof {
            assert(g.nodes().subrange(0, g.len() as int) =~= g.nodes());
        }
        return (Ok(j), Ghost(n));
    }
    let mut cur = i;
    let mut b = budget;
    proof {
        assert(g.nodes().subrange(0, g.len() as int) =~= g.nodes());
    }
    loop
        invariant
            g.wf(),
            c.wf(g),
            g.grows_from(&g0),
            g0.wf(),
            i < g0.len(),
            cur < g.len(),
            env == g0.env(),
            ti == g0.term(i as int),
            b <= budget,
            g0 == *old(g),
            forall|r: Result<Term, EvalError>|
                #[trigger] evaluates(env, g.term(cur as int), r) ==> evaluates(env, ti, r),
            eval_fuel(env, g.term(cur as int), b as nat) is None ==> eval_fuel(
                env,
                ti,
                budget as nat,
            ) is None,
        decreases b,
    {
        proof {
            g.lemma_grows(&g0);
        }
        if b == 0 {
            return (Err(EvalError::StepLimit), Ghost(0));
        }
        b = b - 1;
        let ghost g1 = *g;
        let ghost tc = g1.term(cur as int);
        let found = g.cached(cur);
        let res: usize;
        if let Some(j) = found {
            assert(evaluates(env, tc, Ok(g.term(j as int))));
            res = j;
        } else {
            let (r, Ghost(n)) = step_node(g, c, cur, b);
            proof {
                g.lemma_grows(&g1);
                g.lemma_grows_trans(&g1, &g0);
                g.lemma_grows(&g0);
            }
            match r {
                Err(e) => {
                    if e != EvalError::StepLimit {
                        proof {
                            lemma_step_fails(env, tc, n, e);
                            assert(evaluates(env, tc, Err(e)));
                        }
                        let ghost w = choose|w: nat| eval_fuel(env, ti, w) == Some(Err::<Term, EvalError>(e));
                        return (Err(e), Ghost(w));
                    }
                    assert(eval_fuel(env, tc, (b + 1) as nat) is None);
                    return (Err(e), Ghost(0));
                },
                Ok(next) => {
                    if term_eq(g, next, cur) {
                        proof {
                            lemma_step_fixed(env, tc, n);
                            assert(evaluates(env, tc, Ok(tc)));
                        }
                        res = cur;
                    } else {
                        let ghost tn = g.term(next as int);
                        assert forall|r: Result<Term, EvalError>|
                            #[trigger] evaluates(env, g.term(next as int), r) implies evaluates(env, ti, r) by {
                            let m = choose|m: nat| eval_fuel(env, tn, m) == Some(r);
                            lemma_step_back(env, tc, tn, n, m);
                            assert(evaluates(env, tc, r));
                        }
                        proof {
                            if step(env, tc, b as nat) is Some {
                                lemma_step_det(env, tc, n, b as nat);
                                assert(eval_fuel(env, tc, (b + 1) as nat) == eval_fuel(env, tn, b as nat));
                            } else {
                                assert(eval_fuel(env, tc, (b + 1) as nat) is None);
                            }
                        }
                        cur = next;
                        continue;
                    }
                },
            }
        }
        assert(evaluates(env, ti, Ok(g.term(res as int))));
        let ghost g2 = *g;
        remember(g, c, i, res);
        proof {
            g.lemma_grows_trans(&g2, &g0);
        }
        let ghost w = choose|w: nat| eval_fuel(env, ti, w) == Some(Ok::<Term, EvalError>(g.term(res as int)));
        return (Ok(res), Ghost(w));
    }
}

/// One head reduction of node `i`.
fn step_node(g: &mut Graph, c: &mut AtomCache, i: usize, budget: u64) -> (r: (
    Result<usize, EvalError>,
    Ghost<nat>,
))
    requires
        old(g).wf(),
        old(c).wf(old(g)),
        i < old(g).len(),
    ensures
        final(g).wf(),
        final(c).wf(final(g)),
        final(g).grows_from(old(g)),
        r.0 is Ok ==> r.0->Ok_0 < final(g).len(),
        r.0 != Err::<usize, EvalError>(EvalError::StepLimit) ==> step(
            old(g).env(),
            old(g).term(i as int),
            r.1@,
        ) == Some(final(g).outcome(r.0)),
        r.0 == Err::<usize, EvalError>(EvalError::StepLimit) ==> step(
            old(g).env(),
            old(g).term(i as int),
            budget as nat,
        ) is None,
    decreases budget, 4nat,
{
    let ghost g0 = *g;
    proof {
        g.lemma_self();
    }
    match g.node(i) {
        Exp::Atom(Atom::Var(v)) => match g.lookup(v) {
            Some(d) => (Ok(d), Ghost(0)),
            None => (Ok(i), Ghost(0)),
        },
        Exp::Atom(_) => (Ok(i), Ghost(0)),
        Exp::App(f, x) => {
            assert(g0.term(i as int) == ap(g0.term(f as int), g0.term(x as int)));
            apply1_node(g, c, f, x, i, budget)
        },
    }
}

/// Finds the head of `f x` (node `i`) and applies its rule.
fn apply1_node(g: &mut Graph, c: &mut AtomCache, f: usize, x: usize, i: usize, budget: u64) -> (r: (
    Result<usize, EvalError>,
    Ghost<nat>,
))
    requires
        old(g).wf(),
        old(c).wf(old(g)),
        f < old(g).len(),
        x < old(g).len(),
        i < old(g).len(),
    ensures
        final(g).wf(),
        final(c).wf(final(g)),
        final(g).grows_from(old(g)),
        r.0 is Ok ==> r.0->Ok_0 < final(g).len(),
        r.0 != Err::<usize, EvalError>(EvalError::StepLimit) ==> app1(
            old(g).env(),
            old(g).term(f as int),
            old(g).term(x as int),
            old(g).term(i as int),
            r.1@,
        ) == Some(final(g).outcome(r.0)),
        r.0 == Err::<usize, EvalError>(EvalError::StepLimit) ==> app1(
            old(g).env(),
            old(g).term(f as int),
            old(g).term(x as int),
            old(g).term(i as int),
            budget as nat,
        ) is None,
    decreases budget, 3nat,
{
    let ghost g0 = *g;
    let ghost env = g0.env();
    let (rf, Ghost(n1)) = eval_node(g, c, f, budget);
    let ghost g1 = *g;
    proof {
        g1.lemma_grows(&g0);
    }
    let fv = match rf {
        Ok(fv) => fv,
        Err(e) => {
            return (Err(e), Ghost(n1));
        },
    };
    let (r, Ghost(n2)) = match g.node(fv) {
        Exp::Atom(a) => unary_node(g, c, a, x, i, budget),
        Exp::App(gf, y) => {
            assert(g1.term(fv as int) == ap(g1.term(gf as int), g1.term(y as int)));
            apply2_node(g, c, gf, y, x, i, budget)
        },
    };
    proof {
        g.lemma_grows_trans(&g1, &g0);
        if eval_fuel(env, g0.term(f as int), budget as nat) is Some {
            lemma_eval_det(env, g0.term(f as int), n1, budget as nat);
        }
        if r != Err::<usize, EvalError>(EvalError::StepLimit) {
            lemma_eval_mono(env, g0.term(f as int), n1, n1 + n2);
            match g1.nodes()[fv as int] {
                Exp::Atom(a) => lemma_unary_mono(
                    env,
                    a,
                    g0.term(x as int),
                    g0.term(i as int),
                    n2,
                    n1 + n2,
                ),
                Exp::App(gf, y) => lemma_app2_mono(
                    env,
                    g1.term(gf as int),
                    g1.term(y as int),
                    g0.term(x as int),
                    g0.term(i as int),
                    n2,
                    n1 + n2,
                ),
            }
        }
    }
    (r, Ghost(n1 + n2))
}

/// Finds the head of `g y x` (node `i`) and applies its rule.
fn apply2_node(
    g: &mut Graph,
    c: &mut AtomCache,
    gf: usize,
    y: usize,
    x: usize,
    i: usize,
    budget: u64,
) -> (r: (Result<usize, EvalError>, Ghost<nat>))
    requires
        old(g).wf(),
        old(c).wf(old(g)),
        gf < old(g).len(),
        y < old(g).len(),
        x < old(g).len(),
        i < old(g).len(),
    ensures
        final(g).wf(),
        final(c).wf(final(g)),
        final(g).grows_from(old(g)),
        r.0 is Ok ==> r.0->Ok_0 < final(g).len(),
        r.0 != Err::<usize, EvalError>(EvalError::StepLimit) ==> app2(
            old(g).env(),
            old(g).term(gf as int),
            old(g).term(y as int),
            old(g).term(x as int),
            old(g).term(i as int),
            r.1@,
        ) == Some(final(g).outcome(r.0)),
        r.0 == Err::<usize, EvalError>(EvalError::StepLimit) ==> app2(
            old(g).env(),
            old(g).term(gf as int),
            old(g).term(y as int),
            old(g).term(x as int),
            old(g).term(i as int),
            budget as nat,
        ) is None,
    decreases budget, 2nat,
{
    let ghost g0 = *g;
    let ghost env = g0.env();
    let (rg, Ghost(n1)) = eval_node(g, c, gf, budget);
    let ghost g1 = *g;
    proof {
        g1.lemma_grows(&g0);
    }
    let gv = match rg {
        Ok(gv) => gv,
        Err(e) => {
            return (Err(e), Ghost(n1));
        },
    };
    let (r, Ghost(n2)) = match g.node(gv) {
        Exp::Atom(a) => binary_node(g, c, a, y, x, i, budget),
        Exp::App(hf, z) => {
            assert(g1.term(gv as int) == ap(g1.term(hf as int), g1.term(z as int)));
            apply3_node(g, c, hf, z, y, x, i, budget)
        },
    };
    proof {
        g.lemma_grows_trans(&g1, &g0);
        if eval_fuel(env, g0.term(gf as int), budget as nat) is Some {
            lemma_eval_det(env, g0.term(gf as int), n1, budget as nat);
        }
        if r != Err::<usize, EvalError>(EvalError::StepLimit) {
            lemma_eval_mono(env, g0.term(gf as int), n1, n1 + n2);
            match g1.nodes()[gv as int] {
                Exp::Atom(a) => lemma_binary_mono(
                    env,
                    a,
                    g0.term(y as int),
                    g0.term(x as int),
                    g0.term(i as int),
                    n2,
                    n1 + n2,
                ),
                Exp::App(hf, z) => lemma_app3_mono(
                    env,
                    g1.term(hf as int),
                    g1.term(z as int),
                    g0.term(y as int),
                    g0.term(x as int),
                    g0.term(i as int),
                    n2,
                    n1 + n2,
                ),
            }
        }
    }
    (r, Ghost(n1 + n2))
}

/// Finds the head of `h z y x` (node `i`) and applies its rule.
fn apply3_node(
    g: &mut Graph,
    c: &mut AtomCache,
    hf: usize,
    z: usize,
    y: usize,
    x: usize,
    i: usize,
    budget: u64,
) -> (r: (Result<usize, EvalError>, Ghost<nat>))
    requires
        old(g).wf(),
        old(c).wf(old(g)),
        hf < old(g).len(),
        z < old(g).len(),
        y < old(g).len(),
        x < old(g).len(),
        i < old(g).len(),
    ensures
        final(g).wf(),
        final(c).wf(final(g)),
        final(g).grows_from(old(g)),
        r.0 is Ok ==> r.0->Ok_0 < final(g).len(),
        r.0 != Err::<usize, EvalError>(EvalError::StepLimit) ==> app3(
            old(g).env(),
            old(g).term(hf as int),
            old(g).term(z as int),
            old(g).term(y as int),
            old(g).term(x as int),
            old(g).term(i as int),
            r.1@,
        ) == Some(final(g).outcome(r.0)),
        r.0 == Err::<usize, EvalError>(EvalError::StepLimit) ==> app3(
            old(g).env(),
            old(g).term(hf as int),
            old(g).term(z as int),
            old(g).term(y as int),
            old(g).term(x as int),
            old(g).term(i as int),
            budget as nat,
        ) is None,
    decreases budget, 1nat,
{
    let ghost g0 = *g;
    let (rh, Ghost(n)) = eval_node(g, c, hf, budget);
    let ghost g1 = *g;
    proof {
        g1.lemma_grows(&g0);
    }
    let hv = match rh {
        Ok(hv) => hv,
        Err(e) => {
            return (Err(e), Ghost(n));
        },
    };
    match g.node(hv) {
        Exp::Atom(a) => {
            let r = ternary_node(g, c, a, z, y, x, i);
            proof {
                g.lemma_grows_trans(&g1, &g0);
            }
            (Ok(r), Ghost(n))
        },
        Exp::App(_, _) => (Ok(i), Ghost(n)),
    }
}

/// The rules for a head applied to one argument.
fn unary_node(g: &mut Graph, c: &mut AtomCache, a: Atom, x: usize, i: usize, budget: u64) -> (r: (
    Result<usize, EvalError>,
    Ghost<nat>,
))
    requires
        old(g).wf(),
        old(c).wf(old(g)),
        x < old(g).len(),
        i < old(g).len(),
    ensures
        final(g).wf(),
        final(c).wf(final(g)),
        final(g).grows_from(old(g)),
        r.0 is Ok ==> r.0->Ok_0 < final(g).len(),
        r.0 != Err::<usize, EvalError>(EvalError::StepLimit) ==> unary(
            old(g).env(),
            a,
            old(g).term(x as int),
            old(g).term(i as int),
            r.1@,
        ) == Some(final(g).outcome(r.0)),
        r.0 == Err::<usize, EvalError>(EvalError::StepLimit) ==> unary(
            old(g).env(),
            a,
            old(g).term(x as int),
            old(g).term(i as int),
            budget as nat,
        ) is None,
    decreases budget, 1nat,
{
    let ghost g0 = *g;
    proof {
        assert(g.nodes().subrange(0, g.len() as int) =~= g.nodes());
    }
    match a {
        Atom::Neg | Atom::Inc | Atom::Dec => {
            let (rx, Ghost(n)) = eval_node(g, c, x, budget);
            let v = match rx {
                Ok(v) => v,
                Err(e) => {
                    return (Err(e), Ghost(n));
                },
            };
            match g.node(v).to_int() {
                None => (Err(EvalError::TypeMismatch), Ghost(n)),
                Some(k) => {
                    let val = match a {
                        Atom::Neg => 0i64.wrapping_sub(k),
                        Atom::Inc => k.wrapping_add(1),
                        _ => k.wrapping_sub(1),
                    };
                    let ghost g1 = *g;
                    let r = c.get(g, Atom::Int(val));
                    proof {
                        g.lemma_grows_trans(&g1, &g0);
                    }
                    (Ok(r), Ghost(n))
                },
            }
        },
        Atom::I => (Ok(x), Ghost(0)),
        Atom::Nil => {
            let r = c.get(g, Atom::Bool(true));
            (Ok(r), Ghost(0))
        },
        Atom::IsNil => {
            let tt = c.get(g, Atom::Bool(true));
            let ghost g1 = *g;
            let ff = c.get(g, Atom::Bool(false));
            let ghost g2 = *g;
            let n1 = Exp::app(g, tt, ff);
            let ghost g3 = *g;
            let n2 = Exp::app(g, tt, n1);
            let ghost g4 = *g;
            let r = Exp::app(g, x, n2);
            proof {
                g2.lemma_allocates_trans(&g1, &g0);
                g4.lemma_allocates_trans(&g3, &g2);
                g.lemma_allocates_trans(&g4, &g2);
                g.lemma_allocates_trans(&g2, &g0);
                g2.lemma_grows(&g0);
                g2.lemma_grows(&g1);
                g3.lemma_grows(&g2);
                g4.lemma_grows(&g2);
                c.lemma_keep(&g2, &*g);
            }
            (Ok(r), Ghost(0))
        },
        Atom::Car | Atom::Cdr => {
            let b = match a {
                Atom::Car => true,
                _ => false,
            };
            let k = c.get(g, Atom::Bool(b));
            let ghost g1 = *g;
            let r = Exp::app(g, x, k);
            proof {
                g.lemma_allocates_trans(&g1, &g0);
                g1.lemma_grows(&g0);
                c.lemma_keep(&g1, &*g);
            }
            (Ok(r), Ghost(0))
        },
        _ => (Ok(i), Ghost(0)),
    }
}

/// The rules for a head applied to `y` and then `x`.
fn binary_node(
    g: &mut Graph,
    c: &mut AtomCache,
    a: Atom,
    y: usize,
    x: usize,
    i: usize,
    budget: u64,
) -> (r: (Result<usize, EvalError>, Ghost<nat>))
    requires
        old(g).wf(),
        old(c).wf(old(g)),
        y < old(g).len(),
        x < old(g).len(),
        i < old(g).len(),
    ensures
        final(g).wf(),
        final(c).wf(final(g)),
        final(g).grows_from(old(g)),
        r.0 is Ok ==> r.0->Ok_0 < final(g).len(),
        r.0 != Err::<usize, EvalError>(EvalError::StepLimit) ==> binary(
            old(g).env(),
            a,
            old(g).term(y as int),
            old(g).term(x as int),
            old(g).term(i as int),
            r.1@,
        ) == Some(final(g).outcome(r.0)),
        r.0 == Err::<usize, EvalError>(EvalError::StepLimit) ==> binary(
            old(g).env(),
            a,
            old(g).term(y as int),
            old(g).term(x as int),
            old(g).term(i as int),
            budget as nat,
        ) is None,
    decreases budget, 1nat,
{
    let ghost g0 = *g;
    let ghost env = g0.env();
    proof {
        assert(g.nodes().subrange(0, g.len() as int) =~= g.nodes());
    }
    match a {
        Atom::Bool(true) => (Ok(y), Ghost(0)),
        Atom::Bool(false) => (Ok(x), Ghost(0)),
        _ => {
            if !(a == Atom::Cons || a == Atom::Add || a == Atom::Mul || a == Atom::Div || a == Atom::Lt
                || a == Atom::Eq) {
                return (Ok(i), Ghost(0));
            }
            let (ry, Ghost(n1)) = eval_node(g, c, y, budget);
            let ghost g1 = *g;
            proof {
                g1.lemma_grows(&g0);
            }
            let vy = match ry {
                Ok(vy) => vy,
                Err(e) => {
                    return (Err(e), Ghost(n1));
                },
            };
            let p = g.node(vy).to_int();
            if a != Atom::Cons && p.is_none() {
                return (Err(EvalError::TypeMismatch), Ghost(n1));
            }
            let (rx, Ghost(n2)) = eval_node(g, c, x, budget);
            let ghost g2 = *g;
            proof {
                g2.lemma_grows(&g1);
                g2.lemma_grows_trans(&g1, &g0);
                g2.lemma_grows(&g0);
                lemma_eval_mono(env, g0.term(y as int), n1, n1 + n2);
                if eval_fuel(env, g0.term(y as int), budget as nat) is Some {
                    lemma_eval_det(env, g0.term(y as int), n1, budget as nat);
                }
                if rx != Err::<usize, EvalError>(EvalError::StepLimit) {
                    lemma_eval_mono(env, g0.term(x as int), n2, n1 + n2);
                }
            }
            let vx = match rx {
                Ok(vx) => vx,
                Err(e) => {
                    return (Err(e), Ghost(n1 + n2));
                },
            };
            if a == Atom::Cons {
                proof {
                    lemma_eval_idempotent(env, g0.term(y as int), g1.term(vy as int), n1);
                    lemma_eval_idempotent(env, g0.term(x as int), g2.term(vx as int), n2);
                    lemma_eval_mono(env, g1.term(vy as int), n1, n1 + n2);
                    lemma_eval_mono(env, g2.term(vx as int), n2, n1 + n2);
                }
                let r = cons_node(g, c, vy, vx, Ghost(n1 + n2));
                proof {
                    g.lemma_grows_trans(&g2, &g0);
                }
                return (Ok(r), Ghost(n1 + n2));
            }
            let q = g.node(vx).to_int();
            match q {
                None => (Err(EvalError::TypeMismatch), Ghost(n1 + n2)),
                Some(qv) => {
                    let pv = p.unwrap();
                    let r = arith_node(g, c, a, pv, qv);
                    proof {
                        g.lemma_grows_trans(&g2, &g0);
                    }
                    (r, Ghost(n1 + n2))
                },
            }
        },
    }
}

/// Allocates the pair of normal forms `cons h t` and records it as its own
/// normal form.
fn cons_node(g: &mut Graph, c: &mut AtomCache, h: usize, t: usize, n: Ghost<nat>) -> (r: usize)
    requires
        old(g).wf(),
        old(c).wf(old(g)),
        h < old(g).len(),
        t < old(g).len(),
        eval_fuel(old(g).env(), old(g).term(h as int), n@) == Some(
            Ok::<Term, EvalError>(old(g).term(h as int)),
        ),
        eval_fuel(old(g).env(), old(g).term(t as int), n@) == Some(
            Ok::<Term, EvalError>(old(g).term(t as int)),
        ),
    ensures
        final(g).wf(),
        final(c).wf(final(g)),
        final(g).grows_from(old(g)),
        r < final(g).len(),
        final(g).term(r as int) == ap(
            ap(leaf(Atom::Cons), old(g).term(h as int)),
            old(g).term(t as int),
        ),
{
    let ghost g0 = *g;
    let ghost env = g0.env();
    let r = Exp::cons(g, c, h, t);
    proof {
        g.lemma_grows(&g0);
        let ht = g0.term(h as int);
        let tt = g0.term(t as int);
        lemma_eval_mono(env, ht, n@, n@ + 2);
        lemma_eval_mono(env, tt, n@, n@ + 2);
        lemma_cons_normal(env, ht, tt, n@ + 2);
        assert(evaluates(env, g.term(r as int), Ok(g.term(r as int))));
    }
    let ghost g1 = *g;
    remember(g, c, r, r);
    proof {
        g.lemma_grows_trans(&g1, &g0);
    }
    r
}

/// The rules for a head applied to `z`, `y` and then `x`.
fn ternary_node(g: &mut Graph, c: &mut AtomCache, a: Atom, z: usize, y: usize, x: usize, i: usize) -> (r:
    usize)
    requires
        old(g).wf(),
        old(c).wf(old(g)),
        z < old(g).len(),
        y < old(g).len(),
        x < old(g).len(),
        i < old(g).len(),
    ensures
        final(g).wf(),
        final(c).wf(final(g)),
        final(g).grows_from(old(g)),
        r < final(g).len(),
        final(g).term(r as int) == ternary(
            a,
            old(g).term(z as int),
            old(g).term(y as int),
            old(g).term(x as int),
            old(g).term(i as int),
        ),
{
    let ghost g0 = *g;
    proof {
        assert(g.nodes().subrange(0, g.len() as int) =~= g.nodes());
    }
    let (p, q) = match a {
        Atom::S => (z, x),
        Atom::C => (z, x),
        Atom::B => (y, x),
        Atom::Cons => (x, z),
        _ => {
            return i;
        },
    };
    let first = Exp::app(g, p, q);
    let ghost g1 = *g;
    let r = match a {
        Atom::S => {
            let second = Exp::app(g, y, x);
            let ghost g2 = *g;
            let r = Exp::app(g, first, second);
            proof {
                g2.lemma_allocates_trans(&g1, &g0);
                g.lemma_allocates_trans(&g2, &g0);
                g1.lemma_grows(&g0);
                g2.lemma_grows(&g0);
                g2.lemma_grows(&g1);
                assert(g.term(r as int) == ap(g2.term(first as int), g2.term(second as int)));
                assert(g2.term(first as int) == ap(g0.term(z as int), g0.term(x as int)));
                assert(g2.term(second as int) == ap(g0.term(y as int), g0.term(x as int)));
            }
            r
        },
        Atom::B => {
            let r = Exp::app(g, z, first);
            proof {
                g.lemma_allocates_trans(&g1, &g0);
                g1.lemma_grows(&g0);
                assert(g1.term(first as int) == ap(g0.term(y as int), g0.term(x as int)));
            }
            r
        },
        _ => {
            let r = Exp::app(g, first, y);
            proof {
                g.lemma_allocates_trans(&g1, &g0);
                g1.lemma_grows(&g0);
                assert(g1.term(first as int) == ap(g0.term(p as int), g0.term(q as int)));
            }
            r
        },
    };
    proof {
        c.lemma_keep(&g0, &*g);
    }
    r
}

/// A pair of normal forms is a normal form.
pub proof fn lemma_cons_normal(env: Map<u64, Term>, h: Term, t: Term, n: nat)
    requires
        n >= 2,
        eval_fuel(env, h, n) == Some(Ok::<Term, EvalError>(h)),
        eval_fuel(env, t, n) == Some(Ok::<Term, EvalError>(t)),
    ensures
        eval_fuel(env, ap(ap(leaf(Atom::Cons), h), t), n + 1) == Some(
            Ok::<Term, EvalError>(ap(ap(leaf(Atom::Cons), h), t)),
        ),
{
    let k = leaf(Atom::Cons);
    let kh = ap(k, h);
    assert(step(env, k, (n - 2) as nat) == Some(Ok::<Term, EvalError>(k)));
    assert(eval_fuel(env, k, (n - 1) as nat) == Some(Ok::<Term, EvalError>(k)));
    assert(unary(env, Atom::Cons, h, kh, (n - 1) as nat) == Some(Ok::<Term, EvalError>(kh)));
    assert(app1(env, k, h, kh, (n - 1) as nat) == Some(Ok::<Term, EvalError>(kh)));
    assert(step(env, kh, (n - 1) as nat) == Some(Ok::<Term, EvalError>(kh)));
    assert(eval_fuel(env, kh, n) == Some(Ok::<Term, EvalError>(kh)));
    assert(step(env, k, (n - 1) as nat) == Some(Ok::<Term, EvalError>(k)));
    assert(eval_fuel(env, k, n) == Some(Ok::<Term, EvalError>(k)));
    let whole = ap(kh, t);
    assert(binary(env, Atom::Cons, h, t, whole, n) == Some(Ok::<Term, EvalError>(whole)));
    assert(app2(env, k, h, t, whole, n) == Some(Ok::<Term, EvalError>(whole)));
    assert(app1(env, kh, t, whole, n) == Some(Ok::<Term, EvalError>(whole)));
    assert(step(env, whole, n) == Some(Ok::<Term, EvalError>(whole)));
}

/// Evaluates node `i` of `g` to a normal form under the bindings of `g`.
///
/// On `Ok(j)`, node `j` holds the normal form and the memo slot of node
/// `i` holds `j`; any other error than `StepLimit` is the one that
/// reduction meets; `StepLimit` comes only where reduction needs more than
/// `u64::MAX` rounds.
pub fn eval(g: &mut Graph, c: &mut AtomCache, i: usize) -> (r: Result<usize, EvalError>)
    requires
        old(g).wf(),
        old(c).wf(old(g)),
        i < old(g).len(),
    ensures
        final(g).wf(),
        final(c).wf(final(g)),
        final(g).grows_from(old(g)),
        match r {
            Ok(j) => j < final(g).len() && evaluates(
                old(g).env(),
                old(g).term(i as int),
                Ok(final(g).term(j as int)),
            ),
            Err(e) => e == EvalError::StepLimit || evaluates(
                old(g).env(),
                old(g).term(i as int),
                Err(e),
            ),
        },
        r == Err::<usize, EvalError>(EvalError::StepLimit) ==> eval_fuel(
            old(g).env(),
            old(g).term(i as int),
            u64::MAX as nat,
        ) is None,
        r matches Ok(j) ==> final(g).memo()[i as int] == Some(j),
{
    let (r, Ghost(n)) = eval_node(g, c, i, u64::MAX);
    proof {
        if r != Err::<usize, EvalError>(EvalError::StepLimit) {
            assert(eval_fuel(old(g).env(), old(g).term(i as int), n) == Some(g.outcome(r)));
        }
    }
    r
}

} // verus!
