use icfp::ast::Value;
use icfp::game::{
    commands_request, create_request, join_request, start_request, Command, CreateResponse, Info,
    Response, Role, Ship, Stage, State, Stats,
};

fn cons(h: Value, t: Value) -> Value {
    Value::Cons(Box::new(h), Box::new(t))
}

fn list(items: Vec<Value>) -> Value {
    let mut acc = Value::Nil;
    for v in items.into_iter().rev() {
        acc = cons(v, acc);
    }
    acc
}

fn num(n: i64) -> Value {
    Value::Int(n)
}

fn stats() -> Stats {
    Stats { fuel: 128, damage: 64, coolant: 8, bombs: 1 }
}

fn ship_value(role: i64, id: i64) -> Value {
    list(vec![
        num(role),
        num(id),
        cons(num(3), num(-4)),
        cons(num(0), num(1)),
        stats().to_value(),
        num(10),
        num(64),
    ])
}

#[test]
fn stats_round_trip() {
    assert_eq!(Stats::from_value(&stats().to_value()), Some(stats()));
    assert_eq!(Stats::from_value(&list(vec![num(1), num(2), num(3)])), None);
}

#[test]
fn role_and_stage() {
    assert_eq!(Role::from_value(&num(0)), Some(Role::Attack));
    assert_eq!(Role::from_value(&num(1)), Some(Role::Defend));
    assert_eq!(Role::from_value(&num(2)), None);
    assert_eq!(Stage::from_value(&num(2)), Some(Stage::Finished));
    assert_eq!(Stage::from_value(&Value::Nil), None);
    assert_eq!(Role::from_value(&Role::Defend.to_value()), Some(Role::Defend));
    assert_eq!(Stage::from_value(&Stage::Started.to_value()), Some(Stage::Started));
}

#[test]
fn info_with_and_without_enemy() {
    let with = list(vec![num(256), num(0), list(vec![num(512)]), list(vec![num(16)]), stats().to_value()]);
    assert_eq!(
        Info::from_value(&with),
        Some(Info { ticks: 256, role: Role::Attack, enemy: Some(stats()) })
    );
    let without = list(vec![num(256), num(1), Value::Nil, Value::Nil, Value::Nil]);
    assert_eq!(
        Info::from_value(&without),
        Some(Info { ticks: 256, role: Role::Defend, enemy: None })
    );
}

#[test]
fn ship_fields() {
    let ship = Ship::from_value(&ship_value(1, 7)).unwrap();
    assert_eq!(
        ship,
        Ship {
            role: Role::Defend,
            id: 7,
            x: 3,
            y: -4,
            vx: 0,
            vy: 1,
            stats: stats(),
            temp: 10,
            max_temp: 64,
        }
    );
}

#[test]
fn commands_parse() {
    let acc = list(vec![num(0), cons(num(1), num(-1))]);
    assert_eq!(Command::from_value(&acc), Some(Some(Command::Accelerate { id: 0, x: 1, y: -1 })));
    assert_eq!(Command::from_value(&list(vec![num(1)])), Some(Some(Command::Detonate { id: 0 })));
    let shoot = list(vec![num(2), cons(num(5), num(6)), num(9)]);
    assert_eq!(Command::from_value(&shoot), Some(Some(Command::Shoot { id: 0, x: 5, y: 6 })));
    let split = list(vec![num(3), stats().to_value()]);
    assert_eq!(Command::from_value(&split), Some(Some(Command::Split(stats()))));
    assert_eq!(Command::from_value(&list(vec![num(9)])), Some(None));
    assert_eq!(Command::from_value(&num(9)), None);
}

#[test]
fn command_with_id() {
    assert_eq!(
        Command::Accelerate { id: 0, x: 1, y: 2 }.with_id(5),
        Command::Accelerate { id: 5, x: 1, y: 2 }
    );
    assert_eq!(Command::Detonate { id: 0 }.with_id(5), Command::Detonate { id: 5 });
    assert_eq!(Command::Split(stats()).with_id(5), Command::Split(stats()));
}

#[test]
fn state_and_response() {
    let commands = list(vec![list(vec![num(0), cons(num(1), num(1))]), list(vec![num(7)])]);
    let ships = list(vec![list(vec![ship_value(0, 3), commands])]);
    let state = list(vec![num(12), list(vec![num(16), num(128)]), ships]);
    let parsed = State::from_value(&state).unwrap();
    assert_eq!(parsed.tick, 12);
    assert_eq!(parsed.ships.len(), 1);
    assert_eq!(parsed.ships[0].0.id, 3);
    assert_eq!(parsed.ships[0].1, vec![Command::Accelerate { id: 3, x: 1, y: 1 }]);

    let info = list(vec![num(256), num(0), Value::Nil, Value::Nil, Value::Nil]);
    let response = list(vec![num(1), num(1), info, state]);
    let r = Response::from_value(&response).unwrap();
    assert_eq!(r.stage, Stage::Started);
    assert_eq!(r.info.ticks, 256);
    assert_eq!(r.state.unwrap().tick, 12);

    let info = list(vec![num(256), num(0), Value::Nil, Value::Nil, Value::Nil]);
    let waiting = list(vec![num(1), num(0), info, Value::Nil]);
    assert_eq!(Response::from_value(&waiting).unwrap().state, None);
    assert_eq!(Response::from_value(&list(vec![num(0)])), None);
}

#[test]
fn create_response_keys() {
    let keys = list(vec![list(vec![num(0), num(111)]), list(vec![num(1), num(222)])]);
    let v = list(vec![num(1), keys]);
    assert_eq!(
        CreateResponse::from_value(&v),
        Some(CreateResponse { attack: 111, defend: 222 })
    );
    assert_eq!(CreateResponse::from_value(&list(vec![num(1)])), None);
}

#[test]
fn requests() {
    assert_eq!(create_request(), list(vec![num(1), num(0)]));
    assert_eq!(join_request(42), list(vec![num(2), num(42), Value::Nil]));
    assert_eq!(start_request(42, stats()), list(vec![num(3), num(42), stats().to_value()]));
    let cmds = vec![Command::Detonate { id: 1 }, Command::Shoot { id: 2, x: 3, y: 4 }];
    assert_eq!(
        commands_request(42, &cmds),
        list(vec![
            num(4),
            num(42),
            list(vec![
                list(vec![num(2), num(1)]),
                list(vec![num(2), num(2), cons(num(3), num(4)), Value::Nil]),
            ]),
        ])
    );
}
