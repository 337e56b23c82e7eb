use icfp::ast::Value;
use icfp::interact::{interact_reply, Action, InteractError};
use icfp::parse::{interaction_protocol, Protocol};
use icfp::semantics::EvalError;
use icfp::transport::modulate;
use icfp::{interact, lex};

fn cons(h: Value, t: Value) -> Value {
    Value::Cons(Box::new(h), Box::new(t))
}

fn protocol(src: &str) -> Protocol {
    interaction_protocol(&lex(src).unwrap()).unwrap()
}

#[test]
fn driver_contract() {
    // the entry ignores state and vector and returns (0, 7, nil)
    let mut p = protocol(":1 = ap t ap t ap ap cons 0 ap ap cons 7 ap ap cons nil nil\ngalaxy = :1\n");
    let state = Value::Nil.to_exp(&mut p.graph, &mut p.atoms);
    let vector = cons(Value::Int(0), Value::Int(0)).to_exp(&mut p.graph, &mut p.atoms);
    match interact(&mut p, state, vector).unwrap() {
        Action::Display { state, data } => {
            assert_eq!(Value::from_exp(&p.graph, state), Some(Value::Int(7)));
            assert_eq!(Value::from_exp(&p.graph, data), Some(Value::Nil));
        },
        Action::Send { .. } => panic!("expected no transport"),
    }
}

#[test]
fn driver_send_step() {
    // the entry returns (1, state, vector): always send the vector back
    let mut p = protocol(
        ":1 = ap ap b ap b ap cons 1 ap ap c ap ap b b cons ap ap c cons nil\ngalaxy = :1\n",
    );
    let state = Value::Int(3).to_exp(&mut p.graph, &mut p.atoms);
    let vector = cons(Value::Int(1), Value::Int(2)).to_exp(&mut p.graph, &mut p.atoms);
    let (st, bits) = match interact(&mut p, state, vector).unwrap() {
        Action::Send { state, bits } => (state, bits),
        Action::Display { .. } => panic!("expected a send"),
    };
    assert_eq!(Value::from_exp(&p.graph, st), Some(Value::Int(3)));
    assert_eq!(bits, modulate(&p.graph, vector));
    assert_eq!(bits, "110110000101100010");
    // the answer comes back as the next vector
    match interact_reply(&mut p, st, "110110000100").unwrap() {
        Action::Send { bits, .. } => assert_eq!(bits, "110110000100"),
        Action::Display { .. } => panic!("expected a send"),
    }
    assert_eq!(
        interact_reply(&mut p, st, "2").err(),
        Some(InteractError::Codec(icfp::transport::CodecError::TruncatedInput))
    );
}

#[test]
fn driver_errors() {
    let mut p = protocol(":1 = 5\ngalaxy = :2\n");
    let v = Value::Nil.to_exp(&mut p.graph, &mut p.atoms);
    assert_eq!(interact(&mut p, v, v).err(), Some(InteractError::UnboundEntry));
    let mut p = protocol(":1 = ap t ap t 5\ngalaxy = :1\n");
    let v = Value::Nil.to_exp(&mut p.graph, &mut p.atoms);
    assert_eq!(interact(&mut p, v, v).err(), Some(InteractError::BadResult));
    let mut p = protocol(":1 = ap t ap t ap inc nil\ngalaxy = :1\n");
    let v = Value::Nil.to_exp(&mut p.graph, &mut p.atoms);
    assert_eq!(
        interact(&mut p, v, v).err(),
        Some(InteractError::Eval(EvalError::TypeMismatch))
    );
    let mut p = protocol(":1 = ap t ap t ap ap cons 1 ap ap cons nil ap ap cons t nil\ngalaxy = :1\n");
    let v = Value::Nil.to_exp(&mut p.graph, &mut p.atoms);
    assert_eq!(interact(&mut p, v, v).err(), Some(InteractError::NotData));
}
