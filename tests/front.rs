use icfp::ast::{Atom, AtomCache, Graph, Value};
use icfp::draw::{multidraw_exp, ImageError};
use icfp::lex::LexError;
use icfp::parse::{exp, interaction_protocol, test_suite, ParseError};
use icfp::{eval, lex, Token};

#[test]
fn lex_words() {
    let tokens = lex("ap ap cons 1 nil\n:12 = x3\n").unwrap();
    assert_eq!(
        tokens,
        vec![
            Token::App,
            Token::App,
            Token::Cons,
            Token::Int(1),
            Token::Nil,
            Token::Var(12),
            Token::Assign,
            Token::Var(3),
        ]
    );
}

#[test]
fn lex_all_named_words() {
    let tokens = lex("car cdr isnil eq lt add mul div neg inc dec b c s i t f galaxy").unwrap();
    assert_eq!(
        tokens,
        vec![
            Token::Car,
            Token::Cdr,
            Token::IsNil,
            Token::Eq,
            Token::Lt,
            Token::Add,
            Token::Mul,
            Token::Div,
            Token::Neg,
            Token::Inc,
            Token::Dec,
            Token::B,
            Token::C,
            Token::S,
            Token::I,
            Token::Bool(true),
            Token::Bool(false),
            Token::Galaxy,
        ]
    );
}

#[test]
fn lex_integers() {
    let tokens = lex("-5 +7 0 9223372036854775807 -9223372036854775808").unwrap();
    assert_eq!(
        tokens,
        vec![
            Token::Int(-5),
            Token::Int(7),
            Token::Int(0),
            Token::Int(i64::MAX),
            Token::Int(i64::MIN),
        ]
    );
}

#[test]
fn lex_skips_blank_lines_and_whitespace() {
    let tokens = lex("\n\n  ap\t inc\r\n\n 1  \n").unwrap();
    assert_eq!(tokens, vec![Token::App, Token::Inc, Token::Int(1)]);
    assert_eq!(lex("").unwrap(), vec![]);
}

#[test]
fn lex_unknown_token() {
    assert_eq!(
        lex("ap inc 1\nap foo 2").unwrap_err(),
        LexError::UnknownToken(1, String::from("foo"))
    );
    assert_eq!(lex("x").unwrap_err(), LexError::UnknownToken(0, String::from("x")));
    assert_eq!(lex(":a1").unwrap_err(), LexError::UnknownToken(0, String::from(":a1")));
    assert_eq!(
        lex("9223372036854775808").unwrap_err(),
        LexError::UnknownToken(0, String::from("9223372036854775808"))
    );
}

#[test]
fn parse_protocol() {
    let tokens = lex(":1 = ap inc 1\n:2 = ap ap add :1 :1\ngalaxy = :2\n").unwrap();
    let mut p = interaction_protocol(&tokens).unwrap();
    assert_eq!(p.galaxy, 2);
    let entry = p.graph.lookup(2).unwrap();
    let r = eval(&mut p.graph, &mut p.atoms, entry).unwrap();
    assert_eq!(Value::from_exp(&p.graph, r), Some(Value::Int(4)));
    assert!(p.graph.lookup(3).is_none());
}

#[test]
fn later_binding_wins() {
    let tokens = lex(":1 = 1\n:1 = 2\ngalaxy = :1").unwrap();
    let mut p = interaction_protocol(&tokens).unwrap();
    let entry = p.graph.lookup(1).unwrap();
    let r = eval(&mut p.graph, &mut p.atoms, entry).unwrap();
    assert_eq!(Value::from_exp(&p.graph, r), Some(Value::Int(2)));
}

#[test]
fn parse_errors() {
    let err = |src: &str| interaction_protocol(&lex(src).unwrap()).err();
    assert_eq!(err(":1 = ap inc"), Some(ParseError::UnexpectedEnd));
    assert_eq!(err(":1 inc"), Some(ParseError::MissingAssign));
    assert_eq!(err("1 = 2"), Some(ParseError::UnexpectedToken));
    assert_eq!(err(":1 = ="), Some(ParseError::UnexpectedToken));
    assert_eq!(err(":1 = 1"), Some(ParseError::UnexpectedEnd));
    assert_eq!(err(":1 = 1 galaxy :1"), Some(ParseError::MissingAssign));
    assert_eq!(err("galaxy = 3"), Some(ParseError::UnexpectedToken));
    assert_eq!(err("galaxy ="), Some(ParseError::UnexpectedEnd));
}

#[test]
fn parse_single_expression() {
    let mut g = Graph::new();
    let mut c = AtomCache::new();
    let tokens = lex("ap ap add 1 2 nil").unwrap();
    let (i, end) = exp(&tokens, 0, &mut g, &mut c).unwrap();
    assert_eq!(end, 5);
    let r = eval(&mut g, &mut c, i).unwrap();
    assert_eq!(Value::from_exp(&g, r), Some(Value::Int(3)));
    assert_eq!(exp(&tokens, 6, &mut g, &mut c), Err(ParseError::UnexpectedEnd));
}

#[test]
fn parse_test_suite() {
    let tokens = lex("ap inc 1 = 2\nap ap add 1 2 = 3\n").unwrap();
    let mut suite = test_suite(&tokens).unwrap();
    assert_eq!(suite.equals.len(), 2);
    for k in 0..suite.equals.len() {
        let (l, r) = suite.equals[k];
        let lv = eval(&mut suite.graph, &mut suite.atoms, l).unwrap();
        let rv = eval(&mut suite.graph, &mut suite.atoms, r).unwrap();
        assert_eq!(Value::from_exp(&suite.graph, lv), Value::from_exp(&suite.graph, rv));
    }
    assert_eq!(test_suite(&lex("1 2").unwrap()).err(), Some(ParseError::MissingAssign));
    assert_eq!(test_suite(&lex("1 =").unwrap()).err(), Some(ParseError::UnexpectedEnd));
}

#[test]
fn image_frames() {
    let mut g = Graph::new();
    let mut c = AtomCache::new();
    let src = "ap ap cons ap ap cons ap ap cons 1 2 ap ap cons ap ap cons 3 -4 nil ap ap cons nil nil";
    let tokens = lex(src).unwrap();
    let (i, _) = exp(&tokens, 0, &mut g, &mut c).unwrap();
    let r = eval(&mut g, &mut c, i).unwrap();
    let mut frames = Vec::new();
    multidraw_exp(&g, r, &mut frames).unwrap();
    assert_eq!(frames, vec![vec![(1, 2), (3, -4)], vec![]]);
}

#[test]
fn image_bad_structure() {
    let mut g = Graph::new();
    let mut c = AtomCache::new();
    let tokens = lex("ap ap cons ap ap cons 1 nil nil").unwrap();
    let (i, _) = exp(&tokens, 0, &mut g, &mut c).unwrap();
    let r = eval(&mut g, &mut c, i).unwrap();
    let mut frames = Vec::new();
    assert_eq!(multidraw_exp(&g, r, &mut frames), Err(ImageError::BadStructure));
}

#[test]
fn show_atoms() {
    assert_eq!(Atom::Int(-42).show(), "-42");
    assert_eq!(Atom::Int(0).show(), "0");
    assert_eq!(Atom::Int(i64::MIN).show(), "-9223372036854775808");
    assert_eq!(Atom::Var(1029).show(), ":1029");
    assert_eq!(Atom::Bool(true).show(), "t");
    assert_eq!(Atom::IsNil.show(), "isnil");
    assert_eq!(Atom::Galaxy.show(), "galaxy");
}

#[test]
fn show_reads_back() {
    let src = "ap ap cons -1 ap ap ap s :12 inc nil";
    let mut g = Graph::new();
    let mut c = AtomCache::new();
    let tokens = lex(src).unwrap();
    let (i, _) = exp(&tokens, 0, &mut g, &mut c).unwrap();
    let text = g.show(i);
    assert_eq!(text, src);
    assert_eq!(lex(&text).unwrap(), tokens);
}

#[test]
fn lex_binding_with_blank_line() {
    let tokens = lex(":1 = ap ap add x2 -3\n\ngalaxy = :1").unwrap();
    assert_eq!(
        tokens,
        vec![
            Token::Var(1),
            Token::Assign,
            Token::App,
            Token::App,
            Token::Add,
            Token::Var(2),
            Token::Int(-3),
            Token::Galaxy,
            Token::Assign,
            Token::Var(1),
        ]
    );
    assert_eq!(
        lex("ap inc ap dec 5").unwrap(),
        vec![Token::App, Token::Inc, Token::App, Token::Dec, Token::Int(5)]
    );
}
