use icfp::ast::{AtomCache, Exp, Graph, Value};
use icfp::parse::exp;
use icfp::transport::{demodulate, demodulate_list, is_data_node, modulate, modulate_int, modulate_int_mut, CodecError};
use icfp::{eval, lex};

fn cons(h: Value, t: Value) -> Value {
    Value::Cons(Box::new(h), Box::new(t))
}

fn evaluated(src: &str, g: &mut Graph, c: &mut AtomCache) -> usize {
    let tokens = lex(src).unwrap();
    let (i, end) = exp(&tokens, 0, g, c).unwrap();
    assert_eq!(end, tokens.len());
    eval(g, c, i).unwrap()
}

#[test]
fn modulate_small_integers() {
    assert_eq!(modulate_int(0), "010");
    assert_eq!(modulate_int(1), "01100001");
    assert_eq!(modulate_int(16), "0111000010000");
    assert_eq!(modulate_int(256), "011110000100000000");
    assert_eq!(modulate_int(-100), "1011001100100");
}

#[test]
fn modulate_int_appends_to_buffer() {
    let mut buffer = String::from("00");
    modulate_int_mut(1, &mut buffer);
    assert_eq!(buffer, "0001100001");
}

#[test]
fn list_round_trip() {
    let mut g = Graph::new();
    let mut c = AtomCache::new();
    let i = evaluated(
        "ap ap cons 1 ap ap cons ap ap cons 2 ap ap cons 3 nil ap ap cons 4 nil",
        &mut g,
        &mut c,
    );
    assert!(is_data_node(&g, i));
    let bits = modulate(&g, i);
    assert_eq!(bits, "1101100001111101100010110110001100110110010000");
    let j = demodulate(&bits, &mut g, &mut c).unwrap();
    let expected = cons(
        Value::Int(1),
        cons(
            cons(Value::Int(2), cons(Value::Int(3), Value::Nil)),
            cons(Value::Int(4), Value::Nil),
        ),
    );
    assert_eq!(Value::from_exp(&g, j), Some(expected));
    assert_eq!(Value::from_exp(&g, i), Value::from_exp(&g, j));
}

#[test]
fn demodulated_node_is_its_own_normal_form() {
    let mut g = Graph::new();
    let mut c = AtomCache::new();
    let j = demodulate("110110000100", &mut g, &mut c).unwrap();
    assert_eq!(Exp::get_cached(&g, j), Some(j));
    assert_eq!(Value::from_exp(&g, j), Some(cons(Value::Int(1), Value::Nil)));
}

#[test]
fn integer_round_trip_on_samples() {
    let samples = [
        0i64,
        1,
        -1,
        7,
        15,
        16,
        -100,
        255,
        256,
        4095,
        4096,
        (1i64 << 59) + 3,
        -(1i64 << 59),
        (1i64 << 60) - 1,
        i64::MAX,
        i64::MIN,
    ];
    for v in samples {
        let bits = modulate_int(v);
        let mut g = Graph::new();
        let mut c = AtomCache::new();
        let j = demodulate(&bits, &mut g, &mut c).unwrap();
        assert_eq!(g.node(j).to_int(), Some(v));
    }
}

#[test]
fn demodulate_zero_and_negative() {
    let mut g = Graph::new();
    let mut c = AtomCache::new();
    let j = demodulate("010", &mut g, &mut c).unwrap();
    assert_eq!(g.node(j).to_int(), Some(0));
    let j = demodulate("1011001100100", &mut g, &mut c).unwrap();
    assert_eq!(g.node(j).to_int(), Some(-100));
    let j = demodulate("0111000010000", &mut g, &mut c).unwrap();
    assert_eq!(g.node(j).to_int(), Some(16));
}

#[test]
fn demodulate_nil() {
    let mut g = Graph::new();
    let mut c = AtomCache::new();
    let j = demodulate("00", &mut g, &mut c).unwrap();
    assert_eq!(Value::from_exp(&g, j), Some(Value::Nil));
}

#[test]
fn demodulate_list_reports_position() {
    let mut g = Graph::new();
    let mut c = AtomCache::new();
    let bits: Vec<char> = "0100011".chars().collect();
    let (i, end) = demodulate_list(&bits, 0, &mut g, &mut c).unwrap();
    assert_eq!(end, 3);
    assert_eq!(g.node(i).to_int(), Some(0));
    let (k, end) = demodulate_list(&bits, 3, &mut g, &mut c).unwrap();
    assert_eq!(end, 5);
    assert_eq!(Value::from_exp(&g, k), Some(Value::Nil));
}

#[test]
fn demodulate_errors() {
    let mut g = Graph::new();
    let mut c = AtomCache::new();
    assert_eq!(demodulate("", &mut g, &mut c), Err(CodecError::TruncatedInput));
    assert_eq!(demodulate("0", &mut g, &mut c), Err(CodecError::TruncatedInput));
    assert_eq!(demodulate("011", &mut g, &mut c), Err(CodecError::TruncatedInput));
    assert_eq!(demodulate("0110000", &mut g, &mut c), Err(CodecError::TruncatedInput));
    assert_eq!(demodulate("0x", &mut g, &mut c), Err(CodecError::BadTag));
    assert_eq!(demodulate("012", &mut g, &mut c), Err(CodecError::BadTag));
    assert_eq!(demodulate("01100a01", &mut g, &mut c), Err(CodecError::BadTag));
    assert_eq!(demodulate("001", &mut g, &mut c), Err(CodecError::TrailingInput));
    assert_eq!(demodulate("11010", &mut g, &mut c), Err(CodecError::TruncatedInput));
}

#[test]
fn demodulate_overflow() {
    let mut g = Graph::new();
    let mut c = AtomCache::new();
    // 2^63 as a positive integer does not fit
    let mut bits = String::from("01");
    bits.push_str(&"1".repeat(16));
    bits.push('0');
    bits.push('1');
    bits.push_str(&"0".repeat(63));
    assert_eq!(demodulate(&bits, &mut g, &mut c), Err(CodecError::Overflow));
    // 2^63 as a negative integer is i64::MIN
    let neg = format!("10{}", &bits[2..]);
    let j = demodulate(&neg, &mut g, &mut c).unwrap();
    assert_eq!(g.node(j).to_int(), Some(i64::MIN));
    // 17 groups of four ones
    let mut wide = String::from("01");
    wide.push_str(&"1".repeat(17));
    wide.push('0');
    wide.push_str(&"1".repeat(68));
    assert_eq!(demodulate(&wide, &mut g, &mut c), Err(CodecError::Overflow));
}

