//! The meaning of reduction, as spec functions over [`Term`]s.
//!
//! `eval_fuel(env, t, n)` is normal-order reduction of `t` with at most `n`
//! nested rounds of work; `None` means the bound ran out.  A term evaluates
//! to a result when some bound is enough: see [`evaluates`].
use vstd::prelude::*;

use crate::ast::{Atom, Term};

verus! {

/// What stops a reduction.
#[derive(Clone, Copy, Debug, PartialEq, Eq, Structural)]
pub enum EvalError {
    /// An integer was expected and something else was found.
    TypeMismatch,
    /// Division by zero.
    DivByZero,
    /// The evaluator's step budget of `u64::MAX` steps ran out.
    StepLimit,
}

pub type Outcome = Option<Result<Term, EvalError>>;

pub open spec fn leaf(a: Atom) -> Term {
    Term::Leaf(a)
}

pub open spec fn ap(f: Term, x: Term) -> Term {
    Term::Ap(Box::new(f), Box::new(x))
}

/// `i64` division rounded toward zero; `i64::MIN / -1` wraps to `i64::MIN`.
pub open spec fn trunc_div(a: i64, b: i64) -> i64 {
    let ma: int = if a < 0 { -a } else { a as int };
    let mb: int = if b < 0 { -b } else { b as int };
    let q: int = ma / mb;
    let s: int = if (a < 0) != (b < 0) { -q } else { q };
    if s > i64::MAX { i64::MIN } else { s as i64 }
}

/// The integer that an evaluation outcome holds.
pub open spec fn int_of(r: Outcome) -> Option<Result<i64, EvalError>> {
    match r {
        None => None,
        Some(Err(e)) => Some(Err(e)),
        Some(Ok(Term::Leaf(Atom::Int(v)))) => Some(Ok(v)),
        Some(Ok(_)) => Some(Err(EvalError::TypeMismatch)),
    }
}

/// Rules that fire on a head applied to one argument `x`; `t` is the whole term.
pub open spec fn unary(env: Map<u64, Term>, a: Atom, x: Term, t: Term, n: nat) -> Outcome
    decreases n, 1nat,
{
    match a {
        Atom::Neg => match int_of(eval_fuel(env, x, n)) {
            None => None,
            Some(Err(e)) => Some(Err(e)),
            Some(Ok(v)) => Some(Ok(leaf(Atom::Int(vstd::wrapping::i64_specs::wrapping_sub(0, v))))),
        },
        Atom::Inc => match int_of(eval_fuel(env, x, n)) {
            None => None,
            Some(Err(e)) => Some(Err(e)),
            Some(Ok(v)) => Some(Ok(leaf(Atom::Int(vstd::wrapping::i64_specs::wrapping_add(v, 1))))),
        },
        Atom::Dec => match int_of(eval_fuel(env, x, n)) {
            None => None,
            Some(Err(e)) => Some(Err(e)),
            Some(Ok(v)) => Some(Ok(leaf(Atom::Int(vstd::wrapping::i64_specs::wrapping_sub(v, 1))))),
        },
        Atom::I => Some(Ok(x)),
        Atom::Nil => Some(Ok(leaf(Atom::Bool(true)))),
        Atom::IsNil => Some(
            Ok(
                ap(
                    x,
                    ap(leaf(Atom::Bool(true)), ap(leaf(Atom::Bool(true)), leaf(Atom::Bool(false)))),
                ),
            ),
        ),
        Atom::Car => Some(Ok(ap(x, leaf(Atom::Bool(true))))),
        Atom::Cdr => Some(Ok(ap(x, leaf(Atom::Bool(false))))),
        _ => Some(Ok(t)),
    }
}

/// The result of an integer operator on its two evaluated operands.
pub open spec fn arith(a: Atom, p: i64, q: i64) -> Result<Term, EvalError> {
    match a {
        Atom::Add => Ok(leaf(Atom::Int(vstd::wrapping::i64_specs::wrapping_add(p, q)))),
        Atom::Mul => Ok(leaf(Atom::Int(vstd::wrapping::i64_specs::wrapping_mul(p, q)))),
        Atom::Div => if q == 0 {
            Err(EvalError::DivByZero)
        } else {
            Ok(leaf(Atom::Int(trunc_div(p, q))))
        },
        Atom::Lt => Ok(leaf(Atom::Bool(p < q))),
        _ => Ok(leaf(Atom::Bool(p == q))),
    }
}

pub open spec fn is_arith(a: Atom) -> bool {
    a is Add || a is Mul || a is Div || a is Lt || a is Eq
}

/// Rules that fire on a head applied to `y` and then `x`.
pub open spec fn binary(env: Map<u64, Term>, a: Atom, y: Term, x: Term, t: Term, n: nat) -> Outcome
    decreases n, 1nat,
{
    match a {
        Atom::Bool(true) => Some(Ok(y)),
        Atom::Bool(false) => Some(Ok(x)),
        Atom::Cons => match eval_fuel(env, y, n) {
            None => None,
            Some(Err(e)) => Some(Err(e)),
            Some(Ok(vy)) => match eval_fuel(env, x, n) {
                None => None,
                Some(Err(e)) => Some(Err(e)),
                Some(Ok(vx)) => Some(Ok(ap(ap(leaf(Atom::Cons), vy), vx))),
            },
        },
        _ => if is_arith(a) {
            match int_of(eval_fuel(env, y, n)) {
                None => None,
                Some(Err(e)) => Some(Err(e)),
                Some(Ok(p)) => match int_of(eval_fuel(env, x, n)) {
                    None => None,
                    Some(Err(e)) => Some(Err(e)),
                    Some(Ok(q)) => Some(arith(a, p, q)),
                },
            }
        } else {
            Some(Ok(t))
        },
    }
}

/// Rules that fire on a head applied to `z`, `y` and then `x`.
pub open spec fn ternary(a: Atom, z: Term, y: Term, x: Term, t: Term) -> Term {
    match a {
        Atom::S => ap(ap(z, x), ap(y, x)),
        Atom::C => ap(ap(z, x), y),
        Atom::B => ap(z, ap(y, x)),
        Atom::Cons => ap(ap(x, z), y),
        _ => t,
    }
}

/// The head of `f x`, found by evaluating `f`.
pub open spec fn app1(env: Map<u64, Term>, f: Term, x: Term, t: Term, n: nat) -> Outcome
    decreases n, 3nat,
{
    match eval_fuel(env, f, n) {
        None => None,
        Some(Err(e)) => Some(Err(e)),
        Some(Ok(Term::Leaf(a))) => unary(env, a, x, t, n),
        Some(Ok(Term::Ap(g, y))) => app2(env, *g, *y, x, t, n),
    }
}

/// The head of `g y x`, found by evaluating `g`.
pub open spec fn app2(env: Map<u64, Term>, g: Term, y: Term, x: Term, t: Term, n: nat) -> Outcome
    decreases n, 2nat,
{
    match eval_fuel(env, g, n) {
        None => None,
        Some(Err(e)) => Some(Err(e)),
        Some(Ok(Term::Leaf(a))) => binary(env, a, y, x, t, n),
        Some(Ok(Term::Ap(h, z))) => app3(env, *h, *z, y, x, t, n),
    }
}

/// The head of `h z y x`, found by evaluating `h`.
pub open spec fn app3(env: Map<u64, Term>, h: Term, z: Term, y: Term, x: Term, t: Term, n: nat) -> Outcome
    decreases n, 1nat,
{
    match eval_fuel(env, h, n) {
        None => None,
        Some(Err(e)) => Some(Err(e)),
        Some(Ok(Term::Leaf(a))) => Some(Ok(ternary(a, z, y, x, t))),
        Some(Ok(_)) => Some(Ok(t)),
    }
}

/// One head reduction of `t`.  The head of an application is found by
/// evaluating the function part, then its function part, and so on, up to
/// three arguments deep.  A term that no rule rewrites is returned as it is.
pub open spec fn step(env: Map<u64, Term>, t: Term, n: nat) -> Outcome
    decreases n, 4nat,
{
    match t {
        Term::Leaf(Atom::Var(v)) => Some(Ok(if env.contains_key(v) { env[v] } else { t })),
        Term::Leaf(_) => Some(Ok(t)),
        Term::Ap(f, x) => app1(env, *f, *x, t, n),
    }
}

/// Reduction to a fixed point of `step`, with at most `n` rounds.
pub open spec fn eval_fuel(env: Map<u64, Term>, t: Term, n: nat) -> Outcome
    decreases n, 0nat,
{
    if n == 0 {
        None
    } else {
        match step(env, t, (n - 1) as nat) {
            None => None,
            Some(Err(e)) => Some(Err(e)),
            Some(Ok(next)) => if next == t {
                Some(Ok(t))
            } else {
                eval_fuel(env, next, (n - 1) as nat)
            },
        }
    }
}

/// `t` reduces to the normal form or error `r` under the bindings `env`.
pub open spec fn evaluates(env: Map<u64, Term>, t: Term, r: Result<Term, EvalError>) -> bool {
    exists|n: nat| eval_fuel(env, t, n) == Some(r)
}

/// The number of leaves and applications in a term.
pub open spec fn size(t: Term) -> nat
    decreases t,
{
    match t {
        Term::Leaf(_) => 1,
        Term::Ap(f, x) => size(*f) + size(*x) + 1,
    }
}

/// More rounds never change an outcome that fewer rounds reached.
pub proof fn lemma_eval_mono(env: Map<u64, Term>, t: Term, n: nat, m: nat)
    requires
        n <= m,
        eval_fuel(env, t, n) is Some,
    ensures
        eval_fuel(env, t, m) == eval_fuel(env, t, n),
    decreases n, 0nat,
{
    if n > 0 {
        lemma_step_mono(env, t, (n - 1) as nat, (m - 1) as nat);
        match step(env, t, (n - 1) as nat) {
            Some(Ok(next)) => if next != t {
                lemma_eval_mono(env, next, (n - 1) as nat, (m - 1) as nat);
            },
            _ => {},
        }
    }
}

pub proof fn lemma_unary_mono(env: Map<u64, Term>, a: Atom, x: Term, t: Term, n: nat, m: nat)
    requires
        n <= m,
        unary(env, a, x, t, n) is Some,
    ensures
        unary(env, a, x, t, m) == unary(env, a, x, t, n),
    decreases n, 1nat,
{
    if a is Neg || a is Inc || a is Dec {
        lemma_eval_mono(env, x, n, m);
    }
}

pub proof fn lemma_binary_mono(env: Map<u64, Term>, a: Atom, y: Term, x: Term, t: Term, n: nat, m: nat)
    requires
        n <= m,
        binary(env, a, y, x, t, n) is Some,
    ensures
        binary(env, a, y, x, t, m) == binary(env, a, y, x, t, n),
    decreases n, 1nat,
{
    if a is Cons || is_arith(a) {
        lemma_eval_mono(env, y, n, m);
        match eval_fuel(env, y, n) {
            Some(Ok(_)) => {
                if eval_fuel(env, x, n) is Some {
                    lemma_eval_mono(env, x, n, m);
                }
            },
            _ => {},
        }
    }
}

pub proof fn lemma_app3_mono(
    env: Map<u64, Term>,
    h: Term,
    z: Term,
    y: Term,
    x: Term,
    t: Term,
    n: nat,
    m: nat,
)
    requires
        n <= m,
        app3(env, h, z, y, x, t, n) is Some,
    ensures
        app3(env, h, z, y, x, t, m) == app3(env, h, z, y, x, t, n),
    decreases n, 1nat,
{
    lemma_eval_mono(env, h, n, m);
}

pub proof fn lemma_app2_mono(env: Map<u64, Term>, g: Term, y: Term, x: Term, t: Term, n: nat, m: nat)
    requires
        n <= m,
        app2(env, g, y, x, t, n) is Some,
    ensures
        app2(env, g, y, x, t, m) == app2(env, g, y, x, t, n),
    decreases n, 2nat,
{
    lemma_eval_mono(env, g, n, m);
    match eval_fuel(env, g, n) {
        Some(Ok(Term::Leaf(a))) => lemma_binary_mono(env, a, y, x, t, n, m),
        Some(Ok(Term::Ap(h, z))) => lemma_app3_mono(env, *h, *z, y, x, t, n, m),
        _ => {},
    }
}

pub proof fn lemma_app1_mono(env: Map<u64, Term>, f: Term, x: Term, t: Term, n: nat, m: nat)
    requires
        n <= m,
        app1(env, f, x, t, n) is Some,
    ensures
        app1(env, f, x, t, m) == app1(env, f, x, t, n),
    decreases n, 3nat,
{
    lemma_eval_mono(env, f, n, m);
    match eval_fuel(env, f, n) {
        Some(Ok(Term::Leaf(a))) => lemma_unary_mono(env, a, x, t, n, m),
        Some(Ok(Term::Ap(g, y))) => lemma_app2_mono(env, *g, *y, x, t, n, m),
        _ => {},
    }
}

pub proof fn lemma_step_mono(env: Map<u64, Term>, t: Term, n: nat, m: nat)
    requires
        n <= m,
        step(env, t, n) is Some,
    ensures
        step(env, t, m) == step(env, t, n),
    decreases n, 4nat,
{
    match t {
        Term::Ap(f, x) => lemma_app1_mono(env, *f, *x, t, n, m),
        _ => {},
    }
}

/// Two bounds that both reach an outcome reach the same one.
pub proof fn lemma_eval_det(env: Map<u64, Term>, t: Term, n: nat, m: nat)
    requires
        eval_fuel(env, t, n) is Some,
        eval_fuel(env, t, m) is Some,
    ensures
        eval_fuel(env, t, n) == eval_fuel(env, t, m),
{
    if n <= m {
        lemma_eval_mono(env, t, n, m);
    } else {
        lemma_eval_mono(env, t, m, n);
    }
}

/// Two bounds under which a step gets somewhere get to the same place.
pub proof fn lemma_step_det(env: Map<u64, Term>, t: Term, n: nat, m: nat)
    requires
        step(env, t, n) is Some,
        step(env, t, m) is Some,
    ensures
        step(env, t, n) == step(env, t, m),
{
    if n <= m {
        lemma_step_mono(env, t, n, m);
    } else {
        lemma_step_mono(env, t, m, n);
    }
}

/// An outcome reached under any bound is reached under the evaluator's
/// budget of `u64::MAX` rounds.
pub proof fn lemma_within_budget(env: Map<u64, Term>, t: Term, r: Result<Term, EvalError>)
    requires
        exists|n: nat| n <= u64::MAX && eval_fuel(env, t, n) == Some(r),
    ensures
        eval_fuel(env, t, u64::MAX as nat) == Some(r),
{
    let n = choose|n: nat| n <= u64::MAX && eval_fuel(env, t, n) == Some(r);
    lemma_eval_mono(env, t, n, u64::MAX as nat);
}

/// Evaluation has at most one result.
pub proof fn lemma_evaluates_unique(
    env: Map<u64, Term>,
    t: Term,
    r1: Result<Term, EvalError>,
    r2: Result<Term, EvalError>,
)
    requires
        evaluates(env, t, r1),
        evaluates(env, t, r2),
    ensures
        r1 == r2,
{
    let n1 = choose|n: nat| eval_fuel(env, t, n) == Some(r1);
    let n2 = choose|n: nat| eval_fuel(env, t, n) == Some(r2);
    lemma_eval_det(env, t, n1, n2);
}

/// A term that steps to a different term `s` has the outcomes of `s`.
pub proof fn lemma_step_back(env: Map<u64, Term>, t: Term, s: Term, n: nat, m: nat)
    requires
        step(env, t, n) == Some(Ok::<Term, EvalError>(s)),
        s != t,
        eval_fuel(env, s, m) is Some,
    ensures
        eval_fuel(env, t, n + m + 1) == eval_fuel(env, s, m),
{
    lemma_step_mono(env, t, n, n + m);
    lemma_eval_mono(env, s, m, n + m);
}

/// A term that steps to itself is its own normal form.
pub proof fn lemma_step_fixed(env: Map<u64, Term>, t: Term, n: nat)
    requires
        step(env, t, n) == Some(Ok::<Term, EvalError>(t)),
    ensures
        eval_fuel(env, t, n + 1) == Some(Ok::<Term, EvalError>(t)),
{
}

/// A step that fails makes the evaluation fail.
pub proof fn lemma_step_fails(env: Map<u64, Term>, t: Term, n: nat, e: EvalError)
    requires
        step(env, t, n) == Some(Err::<Term, EvalError>(e)),
    ensures
        eval_fuel(env, t, n + 1) == Some(Err::<Term, EvalError>(e)),
{
}

/// A term with a step to a different term `s` has exactly the outcomes of `s`.
pub proof fn lemma_same_outcomes(env: Map<u64, Term>, t: Term, s: Term, k: nat)
    requires
        step(env, t, k) == Some(Ok::<Term, EvalError>(s)),
        s != t,
    ensures
        forall|r: Result<Term, EvalError>| evaluates(env, t, r) <==> evaluates(env, s, r),
{
    assert forall|r: Result<Term, EvalError>| evaluates(env, t, r) <==> evaluates(env, s, r) by {
        if evaluates(env, s, r) {
            let m = choose|m: nat| eval_fuel(env, s, m) == Some(r);
            lemma_step_back(env, t, s, k, m);
        }
        if evaluates(env, t, r) {
            let n = choose|n: nat| eval_fuel(env, t, n) == Some(r);
            assert(n > 0);
            lemma_step_mono(env, t, (n - 1) as nat, (n + k) as nat);
            lemma_step_mono(env, t, k, (n + k) as nat);
            assert(eval_fuel(env, s, (n - 1) as nat) == Some(r));
        }
    }
}

/// The result of evaluation is its own normal form:
/// evaluating an evaluated term gives it back.
pub proof fn lemma_eval_idempotent(env: Map<u64, Term>, t: Term, v: Term, n: nat)
    requires
        eval_fuel(env, t, n) == Some(Ok::<Term, EvalError>(v)),
    ensures
        eval_fuel(env, v, n) == Some(Ok::<Term, EvalError>(v)),
    decreases n,
{
    let next = step(env, t, (n - 1) as nat)->0->Ok_0;
    if next != t {
        lemma_eval_idempotent(env, next, v, (n - 1) as nat);
        lemma_eval_mono(env, v, (n - 1) as nat, n);
    }
}

/// Idempotence of reduction: whatever a term evaluates to evaluates to itself,
/// and within `u64::MAX` rounds when the term does.
pub proof fn law_eval_idempotent(env: Map<u64, Term>, t: Term, v: Term)
    requires
        evaluates(env, t, Ok(v)),
    ensures
        evaluates(env, v, Ok(v)),
        eval_fuel(env, t, u64::MAX as nat) == Some(Ok::<Term, EvalError>(v)) ==> eval_fuel(
            env,
            v,
            u64::MAX as nat,
        ) == Some(Ok::<Term, EvalError>(v)),
{
    let n = choose|n: nat| eval_fuel(env, t, n) == Some(Ok::<Term, EvalError>(v));
    lemma_eval_idempotent(env, t, v, n);
    if eval_fuel(env, t, u64::MAX as nat) == Some(Ok::<Term, EvalError>(v)) {
        lemma_eval_idempotent(env, t, v, u64::MAX as nat);
    }
}

/// Within the evaluator's budget: a term with a step (under `k` rounds) to
/// a different term `s` reaches, under `u64::MAX` rounds, what `s` reaches
/// under `m` rounds when `k + m + 1 <= u64::MAX`.
pub proof fn lemma_step_within_budget(env: Map<u64, Term>, t: Term, s: Term, k: nat)
    requires
        step(env, t, k) == Some(Ok::<Term, EvalError>(s)),
        s != t,
    ensures
        forall|m: nat|
            #[trigger] eval_fuel(env, s, m) is Some && k + m + 1 <= u64::MAX ==> eval_fuel(
                env,
                t,
                u64::MAX as nat,
            ) == eval_fuel(env, s, m),
{
    assert forall|m: nat|
        #[trigger] eval_fuel(env, s, m) is Some && k + m + 1 <= u64::MAX implies eval_fuel(
            env,
            t,
            u64::MAX as nat,
        ) == eval_fuel(env, s, m) by {
        lemma_step_back(env, t, s, k, m);
        lemma_eval_mono(env, t, k + m + 1, u64::MAX as nat);
    }
}

/// A combinator atom is its own normal form.
pub proof fn lemma_atom_normal(env: Map<u64, Term>, a: Atom, n: nat)
    requires
        n >= 1,
        !(a is Var),
    ensures
        eval_fuel(env, leaf(a), n) == Some(Ok::<Term, EvalError>(leaf(a))),
{
    assert(step(env, leaf(a), (n - 1) as nat) == Some(Ok::<Term, EvalError>(leaf(a))));
}

/// The identity combinator: `i x` has exactly the outcomes of `x`; within
/// `u64::MAX` rounds whenever `x` reaches its outcome two rounds earlier.
pub proof fn law_identity(env: Map<u64, Term>, x: Term)
    ensures
        forall|r: Result<Term, EvalError>|
            evaluates(env, ap(leaf(Atom::I), x), r) <==> evaluates(env, x, r),
        forall|m: nat|
            #[trigger] eval_fuel(env, x, m) is Some && m + 2 <= u64::MAX ==> eval_fuel(
                env,
                ap(leaf(Atom::I), x),
                u64::MAX as nat,
            ) == eval_fuel(env, x, m),
{
    let t = ap(leaf(Atom::I), x);
    lemma_atom_normal(env, Atom::I, 1);
    assert(step(env, t, 1) == Some(Ok::<Term, EvalError>(x)));
    assert(size(x) < size(t));
    lemma_same_outcomes(env, t, x, 1);
    lemma_step_within_budget(env, t, x, 1);
}

/// `h a b`, for a head `h` of three arguments, is a normal form, and
/// `h a b c` rewrites by the rule of `h`.
pub proof fn lemma_ternary_step(env: Map<u64, Term>, h: Atom, a: Term, b: Term, c: Term)
    requires
        h is S || h is B || h is C,
    ensures
        step(env, ap(ap(ap(leaf(h), a), b), c), 3) == Some(
            Ok::<Term, EvalError>(ternary(h, a, b, c, ap(ap(ap(leaf(h), a), b), c))),
        ),
{
    let ha = ap(leaf(h), a);
    let hab = ap(ha, b);
    lemma_atom_normal(env, h, 1);
    lemma_atom_normal(env, h, 2);
    lemma_atom_normal(env, h, 3);
    assert(step(env, ha, 1) == Some(Ok::<Term, EvalError>(ha)));
    assert(eval_fuel(env, ha, 2) == Some(Ok::<Term, EvalError>(ha)));
    lemma_eval_mono(env, ha, 2, 3);
    assert(app2(env, leaf(h), a, b, hab, 2) == Some(Ok::<Term, EvalError>(hab)));
    assert(step(env, hab, 2) == Some(Ok::<Term, EvalError>(hab)));
    assert(eval_fuel(env, hab, 3) == Some(Ok::<Term, EvalError>(hab)));
    let t = ap(hab, c);
    assert(app3(env, leaf(h), a, b, c, t, 3) == Some(Ok::<Term, EvalError>(ternary(h, a, b, c, t))));
    assert(app2(env, ha, b, c, t, 3) == Some(Ok::<Term, EvalError>(ternary(h, a, b, c, t))));
}

/// The S combinator: `s a b c` has exactly the outcomes of `(a c) (b c)`;
/// within `u64::MAX` rounds whenever the right side reaches its outcome
/// four rounds earlier.
pub proof fn law_s(env: Map<u64, Term>, a: Term, b: Term, c: Term)
    ensures
        forall|r: Result<Term, EvalError>|
            evaluates(env, ap(ap(ap(leaf(Atom::S), a), b), c), r) <==> evaluates(
                env,
                ap(ap(a, c), ap(b, c)),
                r,
            ),
        forall|m: nat|
            #[trigger] eval_fuel(env, ap(ap(a, c), ap(b, c)), m) is Some && m + 4 <= u64::MAX ==> eval_fuel(
                env,
                ap(ap(ap(leaf(Atom::S), a), b), c),
                u64::MAX as nat,
            ) == eval_fuel(env, ap(ap(a, c), ap(b, c)), m),
{
    let t = ap(ap(ap(leaf(Atom::S), a), b), c);
    let s = ap(ap(a, c), ap(b, c));
    lemma_ternary_step(env, Atom::S, a, b, c);
    if s == t {
        assert(a == ap(leaf(Atom::S), a));
        assert(size(a) < size(ap(leaf(Atom::S), a)));
    }
    lemma_same_outcomes(env, t, s, 3);
    lemma_step_within_budget(env, t, s, 3);
}

/// The B combinator: `b a b' c` has exactly the outcomes of `a (b' c)`;
/// within `u64::MAX` rounds whenever the right side reaches its outcome
/// four rounds earlier.
pub proof fn law_b(env: Map<u64, Term>, a: Term, b: Term, c: Term)
    ensures
        forall|r: Result<Term, EvalError>|
            evaluates(env, ap(ap(ap(leaf(Atom::B), a), b), c), r) <==> evaluates(
                env,
                ap(a, ap(b, c)),
                r,
            ),
        forall|m: nat|
            #[trigger] eval_fuel(env, ap(a, ap(b, c)), m) is Some && m + 4 <= u64::MAX ==> eval_fuel(
                env,
                ap(ap(ap(leaf(Atom::B), a), b), c),
                u64::MAX as nat,
            ) == eval_fuel(env, ap(a, ap(b, c)), m),
{
    let t = ap(ap(ap(leaf(Atom::B), a), b), c);
    let s = ap(a, ap(b, c));
    lemma_ternary_step(env, Atom::B, a, b, c);
    if s == t {
        assert(a == ap(ap(leaf(Atom::B), a), b));
        assert(size(a) < size(ap(ap(leaf(Atom::B), a), b)));
    }
    lemma_same_outcomes(env, t, s, 3);
    lemma_step_within_budget(env, t, s, 3);
}

/// The C combinator: `c a b c'` has exactly the outcomes of `(a c') b`;
/// within `u64::MAX` rounds whenever the right side reaches its outcome
/// four rounds earlier.
pub proof fn law_c(env: Map<u64, Term>, a: Term, b: Term, c: Term)
    ensures
        forall|r: Result<Term, EvalError>|
            evaluates(env, ap(ap(ap(leaf(Atom::C), a), b), c), r) <==> evaluates(
                env,
                ap(ap(a, c), b),
                r,
            ),
        forall|m: nat|
            #[trigger] eval_fuel(env, ap(ap(a, c), b), m) is Some && m + 4 <= u64::MAX ==> eval_fuel(
                env,
                ap(ap(ap(leaf(Atom::C), a), b), c),
                u64::MAX as nat,
            ) == eval_fuel(env, ap(ap(a, c), b), m),
{
    let t = ap(ap(ap(leaf(Atom::C), a), b), c);
    let s = ap(ap(a, c), b);
    lemma_ternary_step(env, Atom::C, a, b, c);
    if s == t {
        assert(a == ap(leaf(Atom::C), a));
        assert(size(a) < size(ap(leaf(Atom::C), a)));
    }
    lemma_same_outcomes(env, t, s, 3);
    lemma_step_within_budget(env, t, s, 3);
}

} // verus!
