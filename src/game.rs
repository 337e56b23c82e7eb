//! The game's messages: reading server responses, given as plain values,
//! into records, and writing commands back as values.
use vstd::prelude::*;

use crate::ast::Value;

verus! {

/// The parts of `cons h t`.
pub open spec fn uncons(v: Value) -> Option<(Value, Value)> {
    match v {
        Value::Cons(h, t) => Some((*h, *t)),
        _ => None,
    }
}

/// The integer that `v` is.
pub open spec fn int_val(v: Value) -> Option<i64> {
    match v {
        Value::Int(n) => Some(n),
        _ => None,
    }
}

/// The head of a list and its second element.
pub open spec fn first_two(v: Value) -> Option<(Value, Value)> {
    match uncons(v) {
        Some((a, rest)) => match uncons(rest) {
            Some((b, _)) => Some((a, b)),
            None => None,
        },
        None => None,
    }
}

/// A pair of integers `cons x y`.
pub open spec fn int_pair(v: Value) -> Option<(i64, i64)> {
    match uncons(v) {
        Some((x, y)) => match (int_val(x), int_val(y)) {
            (Some(a), Some(b)) => Some((a, b)),
            _ => None,
        },
        None => None,
    }
}

fn uncons_ref(v: &Value) -> (r: Option<(&Value, &Value)>)
    ensures
        match r {
            Some((h, t)) => uncons(*v) == Some((*h, *t)),
            None => uncons(*v) is None,
        },
{
    match v {
        Value::Cons(h, t) => Some((&**h, &**t)),
        _ => None,
    }
}

fn int_of(v: &Value) -> (r: Option<i64>)
    ensures
        r == int_val(*v),
{
    match v {
        Value::Int(n) => Some(*n),
        _ => None,
    }
}

fn pair_of(v: &Value) -> (r: Option<(i64, i64)>)
    ensures
        r == int_pair(*v),
{
    let (x, y) = uncons_ref(v)?;
    match (int_of(x), int_of(y)) {
        (Some(a), Some(b)) => Some((a, b)),
        _ => None,
    }
}

/// Which side a player is on.
#[derive(Clone, Copy, Debug, PartialEq, Eq, Structural, Hash)]
pub enum Role {
    Attack,
    Defend,
}

/// How far the game has come.
#[derive(Clone, Copy, Debug, PartialEq, Eq, Structural, Hash)]
pub enum Stage {
    NotStarted,
    Started,
    Finished,
}

/// A ship's resources.
#[derive(Clone, Copy, Debug, PartialEq, Eq, Structural, Hash)]
pub struct Stats {
    pub fuel: i64,
    pub damage: i64,
    pub coolant: i64,
    pub bombs: i64,
}

/// Static game state.
#[derive(Clone, Copy, Debug, PartialEq, Eq, Structural, Hash)]
pub struct Info {
    /// Maximum number of game ticks.
    pub ticks: i64,
    pub role: Role,
    /// If attacking, the enemy's statistics.
    pub enemy: Option<Stats>,
}

/// One ship.
#[derive(Clone, Copy, Debug, PartialEq, Eq, Structural, Hash)]
pub struct Ship {
    pub role: Role,
    pub id: i64,
    pub x: i64,
    pub y: i64,
    pub vx: i64,
    pub vy: i64,
    pub stats: Stats,
    pub temp: i64,
    pub max_temp: i64,
}

/// A command to a ship.
#[derive(Clone, Copy, Debug, PartialEq, Eq, Structural, Hash)]
pub enum Command {
    Accelerate { id: i64, x: i64, y: i64 },
    Detonate { id: i64 },
    Shoot { id: i64, x: i64, y: i64 },
    Split(Stats),
}

/// Dynamic game state: the time, and every ship with the commands it was given.
#[derive(Debug, PartialEq, Eq)]
pub struct State {
    pub tick: i64,
    pub ships: Vec<(Ship, Vec<Command>)>,
}

/// A response to `start` or to `commands`.
#[derive(Debug, PartialEq, Eq)]
pub struct Response {
    pub info: Info,
    pub stage: Stage,
    pub state: Option<State>,
}

/// The player keys that `create` hands out.
#[derive(Clone, Copy, Debug, PartialEq, Eq, Structural, Hash)]
pub struct CreateResponse {
    pub attack: i64,
    pub defend: i64,
}

pub open spec fn role_spec(v: Value) -> Option<Role> {
    match v {
        Value::Int(0) => Some(Role::Attack),
        Value::Int(1) => Some(Role::Defend),
        _ => None,
    }
}

pub open spec fn stage_spec(v: Value) -> Option<Stage> {
    match v {
        Value::Int(0) => Some(Stage::NotStarted),
        Value::Int(1) => Some(Stage::Started),
        Value::Int(2) => Some(Stage::Finished),
        _ => None,
    }
}

/// `(fuel, damage, coolant, bombs, ..)`.
pub open spec fn stats_spec(v: Value) -> Option<Stats> {
    match uncons(v) {
        Some((a, r1)) => match uncons(r1) {
            Some((b, r2)) => match uncons(r2) {
                Some((c, r3)) => match uncons(r3) {
                    Some((d, _)) => match (int_val(a), int_val(b), int_val(c), int_val(d)) {
                        (Some(fuel), Some(damage), Some(coolant), Some(bombs)) => Some(
                            Stats { fuel, damage, coolant, bombs },
                        ),
                        _ => None,
                    },
                    None => None,
                },
                None => None,
            },
            None => None,
        },
        None => None,
    }
}

/// `(ticks, role, _, _, enemy, ..)`, with `nil` for no enemy statistics.
pub open spec fn info_spec(v: Value) -> Option<Info> {
    match uncons(v) {
        Some((ticks, r1)) => match uncons(r1) {
            Some((role, r2)) => match uncons(r2) {
                Some((_, r3)) => match uncons(r3) {
                    Some((_, r4)) => match uncons(r4) {
                        Some((enemy, _)) => match (int_val(ticks), role_spec(role)) {
                            (Some(t), Some(ro)) => if enemy == Value::Nil {
                                Some(Info { ticks: t, role: ro, enemy: None })
                            } else {
                                match stats_spec(enemy) {
                                    Some(s) => Some(Info { ticks: t, role: ro, enemy: Some(s) }),
                                    None => None,
                                }
                            },
                            _ => None,
                        },
                        None => None,
                    },
                    None => None,
                },
                None => None,
            },
            None => None,
        },
        None => None,
    }
}

/// `(role, id, (x, y), (vx, vy), stats, temp, max_temp, ..)`.
pub open spec fn ship_spec(v: Value) -> Option<Ship> {
    match uncons(v) {
        Some((role, r1)) => match uncons(r1) {
            Some((id, r2)) => match uncons(r2) {
                Some((pos, r3)) => match uncons(r3) {
                    Some((vel, r4)) => match uncons(r4) {
                        Some((stats, r5)) => match uncons(r5) {
                            Some((temp, r6)) => match uncons(r6) {
                                Some((max_temp, _)) => match (
                                    role_spec(role),
                                    int_val(id),
                                    int_pair(pos),
                                    int_pair(vel),
                                    stats_spec(stats),
                                    int_val(temp),
                                    int_val(max_temp),
                                ) {
                                    (
                                        Some(ro),
                                        Some(i),
                                        Some((x, y)),
                                        Some((vx, vy)),
                                        Some(s),
                                        Some(te),
                                        Some(mt),
                                    ) => Some(
                                        Ship {
                                            role: ro,
                                            id: i,
                                            x,
                                            y,
                                            vx,
                                            vy,
                                            stats: s,
                                            temp: te,
                                            max_temp: mt,
                                        },
                                    ),
                                    _ => None,
                                },
                                None => None,
                            },
                            None => None,
                        },
                        None => None,
                    },
                    None => None,
                },
                None => None,
            },
            None => None,
        },
        None => None,
    }
}

/// A command as the server lists it, with id 0: `None` inside for a kind
/// of command that is not known, `None` outside for a malformed one.
pub open spec fn command_spec(v: Value) -> Option<Option<Command>> {
    match uncons(v) {
        Some((kind, tail)) => match int_val(kind) {
            Some(0) => match uncons(tail) {
                Some((vec, _)) => match int_pair(vec) {
                    Some((x, y)) => Some(Some(Command::Accelerate { id: 0, x, y })),
                    None => None,
                },
                None => None,
            },
            Some(1) => Some(Some(Command::Detonate { id: 0 })),
            Some(2) => match uncons(tail) {
                Some((target, _)) => match int_pair(target) {
                    Some((x, y)) => Some(Some(Command::Shoot { id: 0, x, y })),
                    None => None,
                },
                None => None,
            },
            Some(3) => match uncons(tail) {
                Some((stats, _)) => match stats_spec(stats) {
                    Some(s) => Some(Some(Command::Split(s))),
                    None => None,
                },
                None => None,
            },
            Some(_) => Some(None),
            None => None,
        },
        None => None,
    }
}

impl Role {
    pub fn from_value(v: &Value) -> (r: Option<Role>)
        ensures
            r == role_spec(*v),
    {
        match v {
            Value::Int(0) => Some(Role::Attack),
            Value::Int(1) => Some(Role::Defend),
            _ => None,
        }
    }

    pub fn to_value(self) -> (r: Value)
        ensures
            role_spec(r) == Some(self),
    {
        match self {
            Role::Attack => Value::Int(0),
            Role::Defend => Value::Int(1),
        }
    }
}

impl Stage {
    pub fn from_value(v: &Value) -> (r: Option<Stage>)
        ensures
            r == stage_spec(*v),
    {
        match v {
            Value::Int(0) => Some(Stage::NotStarted),
            Value::Int(1) => Some(Stage::Started),
            Value::Int(2) => Some(Stage::Finished),
            _ => None,
        }
    }

    pub fn to_value(self) -> (r: Value)
        ensures
            stage_spec(r) == Some(self),
    {
        match self {
            Stage::NotStarted => Value::Int(0),
            Stage::Started => Value::Int(1),
            Stage::Finished => Value::Int(2),
        }
    }
}

fn cons_value(h: Value, t: Value) -> (r: Value)
    ensures
        r == cell(h, t),
{
    Value::Cons(Box::new(h), Box::new(t))
}

impl Stats {
    pub fn from_value(v: &Value) -> (r: Option<Stats>)
        ensures
            r == stats_spec(*v),
    {
        let (a, r1) = uncons_ref(v)?;
        let (b, r2) = uncons_ref(r1)?;
        let (c, r3) = uncons_ref(r2)?;
        let (d, _) = uncons_ref(r3)?;
        let fuel = int_of(a)?;
        let damage = int_of(b)?;
        let coolant = int_of(c)?;
        let bombs = int_of(d)?;
        Some(Stats { fuel, damage, coolant, bombs })
    }

    /// The list `(fuel, damage, coolant, bombs)`.
    pub fn to_value(self) -> (r: Value)
        ensures
            r == stats_value(self),
            stats_spec(r) == Some(self),
    {
        cons_value(
            Value::Int(self.fuel),
            cons_value(
                Value::Int(self.damage),
                cons_value(Value::Int(self.coolant), cons_value(Value::Int(self.bombs), Value::Nil)),
            ),
        )
    }
}

impl Info {
    pub fn from_value(v: &Value) -> (r: Option<Info>)
        ensures
            r == info_spec(*v),
    {
        let (ticks, r1) = uncons_ref(v)?;
        let (role, r2) = uncons_ref(r1)?;
        let (_, r3) = uncons_ref(r2)?;
        let (_, r4) = uncons_ref(r3)?;
        let (enemy, _) = uncons_ref(r4)?;
        let ticks = int_of(ticks)?;
        let role = Role::from_value(role)?;
        let enemy = match enemy {
            Value::Nil => None,
            other => Some(Stats::from_value(other)?),
        };
        Some(Info { ticks, role, enemy })
    }
}

impl Ship {
    pub fn from_value(v: &Value) -> (r: Option<Ship>)
        ensures
            r == ship_spec(*v),
    {
        let (role, r1) = uncons_ref(v)?;
        let (id, r2) = uncons_ref(r1)?;
        let (pos, r3) = uncons_ref(r2)?;
        let (vel, r4) = uncons_ref(r3)?;
        let (stats, r5) = uncons_ref(r4)?;
        let (temp, r6) = uncons_ref(r5)?;
        let (max_temp, _) = uncons_ref(r6)?;
        let role = Role::from_value(role)?;
        let id = int_of(id)?;
        let (x, y) = pair_of(pos)?;
        let (vx, vy) = pair_of(vel)?;
        let stats = Stats::from_value(stats)?;
        let temp = int_of(temp)?;
        let max_temp = int_of(max_temp)?;
        Some(Ship { role, id, x, y, vx, vy, stats, temp, max_temp })
    }
}

impl Command {
    /// The same command for ship `id`; a split keeps its statistics.
    pub fn with_id(self, id: i64) -> (r: Command)
        ensures
            r == retarget(self, id),
    {
        match self {
            Command::Accelerate { id: _, x, y } => Command::Accelerate { id, x, y },
            Command::Detonate { .. } => Command::Detonate { id },
            Command::Shoot { id: _, x, y } => Command::Shoot { id, x, y },
            Command::Split(stats) => Command::Split(stats),
        }
    }

    pub fn from_value(v: &Value) -> (r: Option<Option<Command>>)
        ensures
            r == command_spec(*v),
    {
        let (kind, tail) = uncons_ref(v)?;
        let kind = int_of(kind)?;
        if kind == 0 {
            let (vec, _) = uncons_ref(tail)?;
            let (x, y) = pair_of(vec)?;
            Some(Some(Command::Accelerate { id: 0, x, y }))
        } else if kind == 1 {
            Some(Some(Command::Detonate { id: 0 }))
        } else if kind == 2 {
            let (target, _) = uncons_ref(tail)?;
            let (x, y) = pair_of(target)?;
            Some(Some(Command::Shoot { id: 0, x, y }))
        } else if kind == 3 {
            let (stats, _) = uncons_ref(tail)?;
            let stats = Stats::from_value(stats)?;
            Some(Some(Command::Split(stats)))
        } else {
            Some(None)
        }
    }

    /// The command as the server reads it: `(0, id, (x, y))` to
    /// accelerate, `(2, id)` to detonate, `(2, id, (x, y), nil)` to shoot,
    /// `(3, stats)` to split.
    pub fn to_value(self) -> (r: Value)
        ensures
            r == command_value(self),
    {
        match self {
            Command::Accelerate { id, x, y } => cons_value(
                Value::Int(0),
                cons_value(
                    Value::Int(id),
                    cons_value(cons_value(Value::Int(x), Value::Int(y)), Value::Nil),
                ),
            ),
            Command::Detonate { id } => cons_value(
                Value::Int(2),
                cons_value(Value::Int(id), Value::Nil),
            ),
            Command::Shoot { id, x, y } => cons_value(
                Value::Int(2),
                cons_value(
                    Value::Int(id),
                    cons_value(
                        cons_value(Value::Int(x), Value::Int(y)),
                        cons_value(Value::Nil, Value::Nil),
                    ),
                ),
            ),
            Command::Split(stats) => cons_value(
                Value::Int(3),
                cons_value(stats.to_value(), Value::Nil),
            ),
        }
    }
}

/// `cons h t`.
pub open spec fn cell(h: Value, t: Value) -> Value {
    Value::Cons(Box::new(h), Box::new(t))
}

/// The value that `Command::to_value` writes.
pub open spec fn command_value(c: Command) -> Value {
    match c {
        Command::Accelerate { id, x, y } => cell(
            Value::Int(0),
            cell(Value::Int(id), cell(cell(Value::Int(x), Value::Int(y)), Value::Nil)),
        ),
        Command::Detonate { id } => cell(Value::Int(2), cell(Value::Int(id), Value::Nil)),
        Command::Shoot { id, x, y } => cell(
            Value::Int(2),
            cell(
                Value::Int(id),
                cell(cell(Value::Int(x), Value::Int(y)), cell(Value::Nil, Value::Nil)),
            ),
        ),
        Command::Split(s) => cell(Value::Int(3), cell(stats_value(s), Value::Nil)),
    }
}

/// The list `(fuel, damage, coolant, bombs)`.
pub open spec fn stats_value(s: Stats) -> Value {
    cell(
        Value::Int(s.fuel),
        cell(Value::Int(s.damage), cell(Value::Int(s.coolant), cell(Value::Int(s.bombs), Value::Nil))),
    )
}

/// A command given to ship `id`.
pub open spec fn retarget(c: Command, id: i64) -> Command {
    match c {
        Command::Accelerate { id: _, x, y } => Command::Accelerate { id, x, y },
        Command::Detonate { .. } => Command::Detonate { id },
        Command::Shoot { id: _, x, y } => Command::Shoot { id, x, y },
        Command::Split(stats) => Command::Split(stats),
    }
}

/// The known commands of a list, given to ship `id`; the list ends at the
/// first element that is no `cons`.
pub open spec fn commands_spec(l: Value, id: i64) -> Option<Seq<Command>>
    decreases l,
{
    match l {
        Value::Cons(h, t) => match command_spec(*h) {
            None => None,
            Some(oc) => match commands_spec(*t, id) {
                None => None,
                Some(rest) => Some(
                    match oc {
                        Some(c) => seq![retarget(c, id)] + rest,
                        None => rest,
                    },
                ),
            },
        },
        _ => Some(Seq::empty()),
    }
}

/// The ships of a list of `(ship, commands, ..)` entries.
pub open spec fn ships_spec(l: Value) -> Option<Seq<(Ship, Seq<Command>)>>
    decreases l,
{
    match l {
        Value::Cons(h, t) => match uncons(*h) {
            Some((ship_v, rest)) => match (ship_spec(ship_v), uncons(rest)) {
                (Some(ship), Some((cmds, _))) => match (commands_spec(cmds, ship.id), ships_spec(*t)) {
                    (Some(cs), Some(others)) => Some(seq![(ship, cs)] + others),
                    _ => None,
                },
                _ => None,
            },
            None => None,
        },
        _ => Some(Seq::empty()),
    }
}

/// `(tick, _, ships, ..)`.
pub open spec fn state_spec(v: Value) -> Option<(i64, Seq<(Ship, Seq<Command>)>)> {
    match uncons(v) {
        Some((tick, r1)) => match uncons(r1) {
            Some((_, r2)) => match uncons(r2) {
                Some((ships, _)) => match (int_val(tick), ships_spec(ships)) {
                    (Some(t), Some(ss)) => Some((t, ss)),
                    _ => None,
                },
                None => None,
            },
            None => None,
        },
        None => None,
    }
}

/// A state as plain sequences.
pub open spec fn state_view(s: State) -> (i64, Seq<(Ship, Seq<Command>)>) {
    (s.tick, s.ships@.map_values(|p: (Ship, Vec<Command>)| (p.0, p.1@)))
}

pub open spec fn opt_state_view(s: Option<State>) -> Option<(i64, Seq<(Ship, Seq<Command>)>)> {
    match s {
        Some(st) => Some(state_view(st)),
        None => None,
    }
}

/// `(1, stage, info, state, ..)`, with `nil` for no state; any other status
/// is no response.
pub open spec fn response_spec(v: Value) -> Option<
    (Info, Stage, Option<(i64, Seq<(Ship, Seq<Command>)>)>),
> {
    match uncons(v) {
        Some((status, r1)) => if status != Value::Int(1) {
            None
        } else {
            match uncons(r1) {
                Some((stage, r2)) => match uncons(r2) {
                    Some((info, r3)) => match uncons(r3) {
                        Some((state, _)) => match (stage_spec(stage), info_spec(info)) {
                            (Some(sg), Some(inf)) => if state == Value::Nil {
                                Some((inf, sg, None))
                            } else {
                                match state_spec(state) {
                                    Some(st) => Some((inf, sg, Some(st))),
                                    None => None,
                                }
                            },
                            _ => None,
                        },
                        None => None,
                    },
                    None => None,
                },
                None => None,
            }
        },
        None => None,
    }
}

/// `(_, ((_, attack, ..), (_, defend, ..), ..), ..)`.
pub open spec fn create_spec(v: Value) -> Option<CreateResponse> {
    match uncons(v) {
        Some((_, tail)) => match uncons(tail) {
            Some((keys, _)) => match (first_two(keys)) {
                Some((attack_list, defend_list)) => match (
                    first_two(attack_list),
                    first_two(defend_list),
                ) {
                    (Some((_, a)), Some((_, d))) => match (int_val(a), int_val(d)) {
                        (Some(attack), Some(defend)) => Some(CreateResponse { attack, defend }),
                        _ => None,
                    },
                    _ => None,
                },
                None => None,
            },
            None => None,
        },
        None => None,
    }
}

fn second_of(v: &Value) -> (r: Option<(&Value, &Value)>)
    ensures
        match r {
            Some((a, b)) => first_two(*v) == Some((*a, *b)),
            None => first_two(*v) is None,
        },
{
    let (a, rest) = uncons_ref(v)?;
    let (b, _) = uncons_ref(rest)?;
    Some((a, b))
}

/// Appends the known commands of list `l`, given to ship `id`, to `out`.
fn commands_into(l: &Value, id: i64, out: &mut Vec<Command>) -> (ok: bool)
    ensures
        ok == commands_spec(*l, id) is Some,
        ok ==> final(out)@ == old(out)@ + commands_spec(*l, id)->0,
    decreases l,
{
    match l {
        Value::Cons(h, t) => {
            let oc = match Command::from_value(h) {
                Some(oc) => oc,
                None => {
                    return false;
                },
            };
            let ghost o0 = out@;
            if let Some(c) = oc {
                out.push(c.with_id(id));
            }
            let ok = commands_into(t, id, out);
            proof {
                if ok {
                    let rest = commands_spec(**t, id)->0;
                    match oc {
                        Some(c) => assert(o0.push(retarget(c, id)) + rest =~= o0 + (seq![
                            retarget(c, id),
                        ] + rest)),
                        None => {},
                    }
                }
            }
            ok
        },
        _ => {
            assert(out@ + Seq::<Command>::empty() =~= out@);
            true
        },
    }
}

/// Appends the ships of list `l` to `out`.
fn ships_into(l: &Value, out: &mut Vec<(Ship, Vec<Command>)>) -> (ok: bool)
    ensures
        ok == ships_spec(*l) is Some,
        ok ==> final(out)@.map_values(|p: (Ship, Vec<Command>)| (p.0, p.1@)) == old(
            out,
        )@.map_values(|p: (Ship, Vec<Command>)| (p.0, p.1@)) + ships_spec(*l)->0,
    decreases l,
{
    match l {
        Value::Cons(h, t) => {
            let (ship_v, rest) = match uncons_ref(h) {
                Some(p) => p,
                None => {
                    return false;
                },
            };
            let ship = match Ship::from_value(ship_v) {
                Some(s) => s,
                None => {
                    return false;
                },
            };
            let (cmds_v, _) = match uncons_ref(rest) {
                Some(p) => p,
                None => {
                    return false;
                },
            };
            let mut cmds: Vec<Command> = Vec::new();
            if !commands_into(cmds_v, ship.id, &mut cmds) {
                return false;
            }
            assert(Seq::<Command>::empty() + commands_spec(*cmds_v, ship.id)->0 =~= cmds@);
            let ghost o0 = out@;
            out.push((ship, cmds));
            let ok = ships_into(t, out);
            proof {
                if ok {
                    let f = |p: (Ship, Vec<Command>)| (p.0, p.1@);
                    let others = ships_spec(**t)->0;
                    assert(o0.push((ship, cmds)).map_values(f) =~= o0.map_values(f).push(
                        (ship, cmds@),
                    ));
                    assert(o0.map_values(f).push((ship, cmds@)) + others =~= o0.map_values(f) + (
                    seq![(ship, cmds@)] + others));
                }
            }
            ok
        },
        _ => {
            let ghost f = |p: (Ship, Vec<Command>)| (p.0, p.1@);
            assert(out@.map_values(f) + Seq::<(Ship, Seq<Command>)>::empty() =~= out@.map_values(f));
            true
        },
    }
}

impl State {
    pub fn from_value(v: &Value) -> (r: Option<State>)
        ensures
            match r {
                Some(s) => state_spec(*v) == Some(state_view(s)),
                None => state_spec(*v) is None,
            },
    {
        let (tick, r1) = uncons_ref(v)?;
        let (_, r2) = uncons_ref(r1)?;
        let (ships_v, _) = uncons_ref(r2)?;
        let tick = int_of(tick)?;
        let mut ships: Vec<(Ship, Vec<Command>)> = Vec::new();
        if !ships_into(ships_v, &mut ships) {
            return None;
        }
        proof {
            let f = |p: (Ship, Vec<Command>)| (p.0, p.1@);
            assert(Seq::<(Ship, Vec<Command>)>::empty().map_values(f) =~= Seq::<
                (Ship, Seq<Command>),
            >::empty());
            assert(Seq::<(Ship, Seq<Command>)>::empty() + ships_spec(*ships_v)->0 =~= ships_spec(
                *ships_v,
            )->0);
        }
        Some(State { tick, ships })
    }
}

impl Response {
    /// The game response in `v`; `None` for another status or a malformed one.
    pub fn from_value(v: &Value) -> (r: Option<Response>)
        ensures
            match r {
                Some(x) => response_spec(*v) == Some((x.info, x.stage, opt_state_view(x.state))),
                None => response_spec(*v) is None,
            },
    {
        let (status, r1) = uncons_ref(v)?;
        match status {
            Value::Int(1) => {},
            _ => {
                return None;
            },
        }
        let (stage, r2) = uncons_ref(r1)?;
        let (info, r3) = uncons_ref(r2)?;
        let (state, _) = uncons_ref(r3)?;
        let stage = Stage::from_value(stage)?;
        let info = Info::from_value(info)?;
        let state = match state {
            Value::Nil => None,
            other => Some(State::from_value(other)?),
        };
        Some(Response { info, stage, state })
    }
}

impl CreateResponse {
    pub fn from_value(v: &Value) -> (r: Option<CreateResponse>)
        ensures
            r == create_spec(*v),
    {
        let (_, tail) = uncons_ref(v)?;
        let (keys, _) = uncons_ref(tail)?;
        let (attack_list, defend_list) = second_of(keys)?;
        let (_, attack) = second_of(attack_list)?;
        let (_, defend) = second_of(defend_list)?;
        let attack = int_of(attack)?;
        let defend = int_of(defend)?;
        Some(CreateResponse { attack, defend })
    }
}

/// The list of `items`, ending in `nil`.
pub open spec fn list_value(items: Seq<Value>) -> Value
    decreases items.len(),
{
    if items.len() == 0 {
        Value::Nil
    } else {
        cell(items[0], list_value(items.subrange(1, items.len() as int)))
    }
}

/// The request that creates a game: `(1, 0)`.
pub fn create_request() -> (r: Value)
    ensures
        r == cell(Value::Int(1), cell(Value::Int(0), Value::Nil)),
{
    cons_value(Value::Int(1), cons_value(Value::Int(0), Value::Nil))
}

/// The request that joins a game: `(2, player_key, nil)`.
pub fn join_request(player_key: i64) -> (r: Value)
    ensures
        r == cell(Value::Int(2), cell(Value::Int(player_key), cell(Value::Nil, Value::Nil))),
{
    cons_value(Value::Int(2), cons_value(Value::Int(player_key), cons_value(Value::Nil, Value::Nil)))
}

/// The request that starts a game with the given ship: `(3, player_key, stats)`.
pub fn start_request(player_key: i64, stats: Stats) -> (r: Value)
    ensures
        r == cell(Value::Int(3), cell(Value::Int(player_key), cell(stats_value(stats), Value::Nil))),
{
    cons_value(
        Value::Int(3),
        cons_value(Value::Int(player_key), cons_value(stats.to_value(), Value::Nil)),
    )
}

/// The request that gives this turn's commands: `(4, player_key, commands)`.
pub fn commands_request(player_key: i64, commands: &Vec<Command>) -> (r: Value)
    ensures
        r == cell(
            Value::Int(4),
            cell(
                Value::Int(player_key),
                cell(list_value(commands@.map_values(|c: Command| command_value(c))), Value::Nil),
            ),
        ),
{
    let ghost items = commands@.map_values(|c: Command| command_value(c));
    let mut acc = Value::Nil;
    let mut i = commands.len();
    assert(items.subrange(i as int, items.len() as int) =~= Seq::<Value>::empty());
    while i > 0
        invariant
            i <= commands@.len(),
            items == commands@.map_values(|c: Command| command_value(c)),
            acc == list_value(items.subrange(i as int, items.len() as int)),
        decreases i,
    {
        i = i - 1;
        let v = commands[i].to_value();
        assert(items.subrange(i as int, items.len() as int).subrange(1, items.len() - i) =~= items.subrange(
            i + 1,
            items.len() as int,
        ));
        acc = cons_value(v, acc);
    }
    assert(items.subrange(0, items.len() as int) =~= items);
    cons_value(Value::Int(4), cons_value(Value::Int(player_key), cons_value(acc, Value::Nil)))
}

} // verus!
