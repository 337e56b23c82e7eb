use icfp::ast::{Atom, AtomCache, Exp, Graph, Value};
use icfp::parse::{exp, interaction_protocol};
use icfp::semantics::EvalError;
use icfp::{eval, lex};

fn cons(h: Value, t: Value) -> Value {
    Value::Cons(Box::new(h), Box::new(t))
}

/// Parses and evaluates one expression; returns the graph and the result.
fn run(src: &str) -> (Graph, Result<usize, EvalError>) {
    let mut g = Graph::new();
    let mut c = AtomCache::new();
    let tokens = lex(src).unwrap();
    let (i, end) = exp(&tokens, 0, &mut g, &mut c).unwrap();
    assert_eq!(end, tokens.len());
    let r = eval(&mut g, &mut c, i);
    (g, r)
}

fn value(src: &str) -> Option<Value> {
    let (g, r) = run(src);
    Value::from_exp(&g, r.unwrap())
}

#[test]
fn combinator_reduction() {
    assert_eq!(value("ap ap ap s add inc 1"), Some(Value::Int(3)));
}

#[test]
fn car_cdr_on_cons() {
    assert_eq!(value("ap car ap ap cons 7 nil"), Some(Value::Int(7)));
    assert_eq!(value("ap cdr ap ap cons 7 nil"), Some(Value::Nil));
}

#[test]
fn isnil_semantics() {
    assert_eq!(value("ap isnil nil"), Some(Value::Bool(true)));
    assert_eq!(value("ap isnil ap ap cons 1 nil"), Some(Value::Bool(false)));
}

#[test]
fn identity_combinator() {
    assert_eq!(value("ap i 5"), Some(Value::Int(5)));
    assert_eq!(value("ap i ap inc 4"), value("ap inc 4"));
    assert_eq!(value("ap i nil"), Some(Value::Nil));
}

#[test]
fn s_b_c_combinators() {
    // s a b c = (a c) (b c)
    assert_eq!(value("ap ap ap s mul inc 6"), value("ap ap mul 6 ap inc 6"));
    assert_eq!(value("ap ap ap s mul inc 6"), Some(Value::Int(42)));
    // b a b c = a (b c)
    assert_eq!(value("ap ap ap b inc dec 5"), value("ap inc ap dec 5"));
    assert_eq!(value("ap ap ap b neg inc 5"), Some(Value::Int(-6)));
    // c a b c = (a c) b
    assert_eq!(value("ap ap ap c div 2 10"), value("ap ap div 10 2"));
    assert_eq!(value("ap ap ap c div 2 10"), Some(Value::Int(5)));
}

#[test]
fn evaluation_is_idempotent() {
    let mut g = Graph::new();
    let mut c = AtomCache::new();
    let tokens = lex("ap ap cons ap inc 1 ap ap cons ap ap add 2 3 nil").unwrap();
    let (i, _) = exp(&tokens, 0, &mut g, &mut c).unwrap();
    let once = eval(&mut g, &mut c, i).unwrap();
    let twice = eval(&mut g, &mut c, once).unwrap();
    assert_eq!(Value::from_exp(&g, once), Value::from_exp(&g, twice));
    assert_eq!(
        Value::from_exp(&g, once),
        Some(cons(Value::Int(2), cons(Value::Int(5), Value::Nil)))
    );
    // the memo slot of the evaluated node holds its normal form
    assert_eq!(Exp::get_cached(&g, i), Some(once));
}

#[test]
fn booleans_select() {
    assert_eq!(value("ap ap t 1 2"), Some(Value::Int(1)));
    assert_eq!(value("ap ap f 1 2"), Some(Value::Int(2)));
    assert_eq!(value("ap ap ap nil 9 1 2"), Some(Value::Int(1)));
}

#[test]
fn comparisons() {
    assert_eq!(value("ap ap lt 1 2"), Some(Value::Bool(true)));
    assert_eq!(value("ap ap lt 2 2"), Some(Value::Bool(false)));
    assert_eq!(value("ap ap eq 3 3"), Some(Value::Bool(true)));
    assert_eq!(value("ap ap eq 3 4"), Some(Value::Bool(false)));
}

#[test]
fn arithmetic() {
    assert_eq!(value("ap ap add 2 3"), Some(Value::Int(5)));
    assert_eq!(value("ap ap mul -4 3"), Some(Value::Int(-12)));
    assert_eq!(value("ap ap div -7 2"), Some(Value::Int(-3)));
    assert_eq!(value("ap ap div 7 -2"), Some(Value::Int(-3)));
    assert_eq!(value("ap neg 5"), Some(Value::Int(-5)));
    assert_eq!(value("ap dec 0"), Some(Value::Int(-1)));
}

#[test]
fn arithmetic_wraps() {
    assert_eq!(value("ap ap add 9223372036854775807 1"), Some(Value::Int(i64::MIN)));
    assert_eq!(value("ap ap div -9223372036854775808 -1"), Some(Value::Int(i64::MIN)));
    assert_eq!(value("ap neg -9223372036854775808"), Some(Value::Int(i64::MIN)));
}

#[test]
fn cons_with_three_arguments() {
    // cons x y z = z x y
    assert_eq!(value("ap ap ap cons 1 2 add"), Some(Value::Int(3)));
}

#[test]
fn evaluation_errors() {
    assert_eq!(run("ap ap div 1 0").1, Err(EvalError::DivByZero));
    assert_eq!(run("ap inc nil").1, Err(EvalError::TypeMismatch));
    assert_eq!(run("ap ap add 1 t").1, Err(EvalError::TypeMismatch));
}

#[test]
fn normal_forms_stay() {
    assert_eq!(value("nil"), Some(Value::Nil));
    assert_eq!(value("42"), Some(Value::Int(42)));
    let (g, r) = run("ap add 1");
    let j = r.unwrap();
    assert!(matches!(g.node(j), Exp::App(_, _)));
}

#[test]
fn variables_resolve_through_bindings() {
    let tokens = lex(":1 = ap inc :2\n:2 = ap ap mul 3 4\ngalaxy = :1\n").unwrap();
    let mut p = interaction_protocol(&tokens).unwrap();
    assert_eq!(p.galaxy, 1);
    let v = p.atoms.get(&mut p.graph, Atom::Var(1));
    let r = eval(&mut p.graph, &mut p.atoms, v).unwrap();
    assert_eq!(Value::from_exp(&p.graph, r), Some(Value::Int(13)));
}

#[test]
fn unbound_variable_is_inert() {
    assert_eq!(value(":7"), Some(Value::Var(7)));
}

#[test]
fn atoms_are_interned() {
    let mut g = Graph::new();
    let mut c = AtomCache::new();
    let a = c.get(&mut g, Atom::Nil);
    let b = c.get(&mut g, Atom::Nil);
    assert_eq!(a, b);
    let x = c.get(&mut g, Atom::Int(1));
    let y = c.get(&mut g, Atom::Int(1));
    assert_ne!(x, y);
}

#[test]
fn exp_building() {
    let mut g = Graph::new();
    let mut c = AtomCache::new();
    let one = c.get(&mut g, Atom::Int(1));
    let nil = c.get(&mut g, Atom::Nil);
    let pair = Exp::cons(&mut g, &mut c, one, nil);
    assert_eq!(Exp::to_cons(&g, pair), Some((one, nil)));
    assert_eq!(Exp::to_cons(&g, one), None);
    let inc = c.get(&mut g, Atom::Inc);
    let call = Exp::app(&mut g, inc, one);
    assert_eq!(g.node(call), Exp::App(inc, one));
    assert_eq!(Exp::get_cached(&g, call), None);
    let r = eval(&mut g, &mut c, call).unwrap();
    assert_eq!(g.node(r).to_int(), Some(2));
    Exp::set_cached(&mut g, call, r);
    assert_eq!(Exp::get_cached(&g, call), Some(r));
}

#[test]
fn value_to_exp_and_back() {
    let mut g = Graph::new();
    let mut c = AtomCache::new();
    let v = cons(Value::Int(-3), cons(Value::Bool(true), Value::Var(9)));
    let i = v.to_exp(&mut g, &mut c);
    assert_eq!(Value::from_exp(&g, i), Some(v));
}
