use hl::matchdata::Team;
use hl::rawlog::{parse, split_time, Actor, RawLog};
use hl::state::{Charge, ChargeKind, Event, EventKind, GameState, LifeEnd, SentryEnd};
use hl::tfclass::TfClass;

const P: &str = "L 09/15/2026 - 20:00:";
fn line(sec: u32, body: &str) -> String {
    format!("{P}{sec:02}: {body}\n")
}
const RED_MED: &str = "\"med<1><[U:1:1]><Red>\"";
const BLU_MED: &str = "\"bmed<2><[U:1:2]><Blue>\"";
const RED_SNIPER: &str = "\"flashy<3><[U:1:3]><Red>\"";
const BLU_ENGI: &str = "\"engi<4><[U:1:4]><Blue>\"";

fn log() -> String {
    [
        line(0, "World triggered \"Round_Start\""),
        line(0, &format!("{RED_MED} spawned as \"medic\"")),
        line(0, &format!("{BLU_MED} spawned as \"medic\"")),
        line(0, &format!("{RED_SNIPER} spawned as \"sniper\"")),
        line(0, &format!("{BLU_ENGI} spawned as \"engineer\"")),
        line(2, &format!("{BLU_ENGI} triggered \"player_builtobject\" (object \"OBJ_SENTRYGUN\") (position \"0 0 0\")")),
        line(10, &format!("{RED_MED} triggered \"first_heal_after_spawn\" (time \"10\")")),
        line(40, &format!("{BLU_MED} triggered \"chargeready\"")),
        line(50, &format!("{RED_SNIPER} killed {BLU_MED} with \"sniperrifle\" (customkill \"headshot\") (attacker_position \"0 0 0\") (victim_position \"0 0 0\")")),
        line(50, &format!("{BLU_MED} triggered \"medic_death_ex\" (uberpct \"100\")")),
        line(50, &format!("{RED_MED} triggered \"chargeready\"")),
        line(55, &format!("{RED_MED} triggered \"chargedeployed\" (medigun \"kritzkrieg\")")),
        line(56, &format!("{RED_SNIPER} triggered \"killedobject\" (object \"OBJ_SENTRYGUN\") (weapon \"sniperrifle\") (objectowner \"{}\") (attacker_position \"0 0 0\")", &BLU_ENGI[1..BLU_ENGI.len() - 1])),
        line(58, &format!("{RED_SNIPER} committed suicide with \"world\" (attacker_position \"0 0 0\")")),
        line(59, &format!("{RED_MED} triggered \"chargeended\" (duration \"4\")")),
        line(59, "Team \"Red\" triggered \"pointcaptured\" (cp \"0\") (cpname \"#mid\") (numcappers \"1\") (player1 \"med<1><[U:1:1]><Red>\") (position1 \"0 0 0\")"),
        line(59, "World triggered \"Round_Win\" (winner \"Red\")"),
    ]
    .concat()
}

fn actor(account: u32, team: Team, class: TfClass) -> Actor {
    Actor { account, team: Some(team), class: Some(class) }
}

fn ev(at: i64, after_kills: usize, kind: EventKind) -> Event {
    Event { at, after_kills, kind }
}

/// The event lines of `log()`, on a clock where its first line is at `base`,
/// with `k0` kill lines before them in the file.
fn events(base: i64, k0: usize) -> Vec<Event> {
    let rm = actor(1, Team::Red, TfClass::Medic);
    let bm = actor(2, Team::Blue, TfClass::Medic);
    let rs = actor(3, Team::Red, TfClass::Sniper);
    let be = actor(4, Team::Blue, TfClass::Engineer);
    let sentry = || "OBJ_SENTRYGUN".to_string();
    vec![
        ev(base, k0, EventKind::RoundStart),
        ev(base, k0, EventKind::Spawn(rm)),
        ev(base, k0, EventKind::Spawn(bm)),
        ev(base, k0, EventKind::Spawn(rs)),
        ev(base, k0, EventKind::Spawn(be)),
        ev(base + 2, k0, EventKind::Built { by: be, object: sentry() }),
        ev(base + 10, k0, EventKind::FirstHeal(rm)),
        ev(base + 40, k0, EventKind::ChargeReady(bm)),
        ev(base + 50, k0 + 1, EventKind::MedicDied(bm)),
        ev(base + 50, k0 + 1, EventKind::ChargeReady(rm)),
        ev(base + 55, k0 + 1, EventKind::ChargeDeployed { medic: rm, medigun: "kritzkrieg".to_string() }),
        ev(base + 56, k0 + 1, EventKind::ObjectKilled { by: rs, owner: Some(4), object: sentry() }),
        ev(base + 58, k0 + 1, EventKind::Suicide(rs)),
        ev(base + 59, k0 + 1, EventKind::ChargeEnded(rm)),
        ev(
            base + 59,
            k0 + 1,
            EventKind::PointCaptured { team: Some(Team::Red), cp: 0, name: "#mid".to_string(), cappers: vec![1] },
        ),
        ev(base + 59, k0 + 1, EventKind::RoundWin(Some(Team::Red))),
    ]
}

fn start_of(text: &str) -> i64 {
    split_time(text).unwrap().0
}

/// The test log, in seconds from its round start.
fn state() -> GameState {
    let mut raw: RawLog = parse(&log());
    assert_eq!(raw.kills.len(), 1);
    raw.shift(-raw.round_starts[0]);
    GameState::build(&raw, &events(0, 0))
}

#[test]
fn lives_end_on_kills_suicides_and_respawns() {
    let s = state();
    assert_eq!(s.numbers_at(0), [2, 2]);
    assert_eq!(s.numbers_at(49), [2, 2]);
    assert_eq!(s.numbers_at(50), [2, 1], "the Medic killed at :50 is not alive at :50");
    assert_eq!(s.numbers_at(58), [1, 1], "a suicide is a death");
    let med = s.lives.iter().find(|l| l.account == 2).unwrap();
    assert_eq!(med.end, LifeEnd::Killed { by: 3 });
    assert!(s.class_alive(Team::Blue, TfClass::Engineer, 58));
    assert!(!s.class_alive(Team::Blue, TfClass::Medic, 50));
}

#[test]
fn charge_is_read_between_known_points() {
    let s = state();
    // Red builds from its first heal at :10 to ready at :50.
    assert_eq!(s.charge_at(Team::Red, 5), Charge::Building, "before the first heal it waits");
    assert_eq!(s.charge_at(Team::Red, 30), Charge::Building);
    assert_eq!(s.charge_at(Team::Red, 52), Charge::Ready);
    assert_eq!(s.charge_at(Team::Red, 56), Charge::Deployed);
    assert_eq!(s.charge_at(Team::Red, 59), Charge::Building, "a used charge starts again from 0");
    // Blue: ready at :40, dropped at :50.
    assert_eq!(s.charge_at(Team::Blue, 20), Charge::Building);
    assert_eq!(s.charge_at(Team::Blue, 45), Charge::Ready);
    assert_eq!(s.charge_at(Team::Blue, 50), Charge::NoMedic);
    let deployed = s.charges.iter().find(|c| c.kind == ChargeKind::Deployed).unwrap();
    assert_eq!(deployed.medigun.as_deref(), Some("kritzkrieg"));
    // The wait before the first heal is a span of its own.
    let red: Vec<(ChargeKind, i64, i64)> =
        s.charges.iter().filter(|c| c.medic == 1).map(|c| (c.kind, c.from, c.to)).collect();
    assert_eq!(
        red,
        vec![
            (ChargeKind::Building, 0, 10),
            (ChargeKind::Building, 10, 50),
            (ChargeKind::Ready, 50, 55),
            (ChargeKind::Deployed, 55, 59),
            (ChargeKind::Building, 59, 60),
        ]
    );
}

#[test]
fn advantage_is_a_charge_the_other_side_cannot_answer() {
    let s = state();
    assert_eq!(s.advantage_at(30), None, "both building");
    assert_eq!(s.advantage_at(45), Some(Team::Blue), "Blue ready, Red at 87%");
    assert_eq!(s.advantage_at(52), Some(Team::Red), "Blue's Medic was dropped");
    assert_eq!(s.advantage_at(56), None, "a charge in use is spent, not held");
}

#[test]
fn a_combined_log_part_from_earlier_starts_clean() {
    // The second part was played first, but logs.tf appended it after.
    let early = log().replace("20:00:", "19:00:");
    let raw = parse(&(log() + &early));
    assert_eq!(raw.kills.len(), 2);
    let late_start = start_of("L 09/15/2026 - 20:00:00: x");
    let early_start = start_of("L 09/15/2026 - 19:00:00: x");
    let mut evs = events(late_start, 0);
    evs.extend(events(early_start, 1));
    let s = GameState::build(&raw, &evs);
    let t = |h: u32, sec: i64| s.rounds.iter().find(|r| r.start % 86_400 / 3600 == i64::from(h)).unwrap().start + sec;
    assert_eq!(s.numbers_at(t(20, 30)), [2, 2]);
    assert_eq!(s.numbers_at(t(19, 30)), [2, 2], "nothing from the later part is still alive in the earlier one");
    assert!(s.lives.iter().all(|l| l.to >= l.from));
}

#[test]
fn a_part_appended_twice_counts_once() {
    let raw = parse(&(log() + &log()));
    let start = start_of("L 09/15/2026 - 20:00:00: x");
    let mut evs = events(start, 0);
    evs.extend(events(start, 1));
    let s = GameState::build(&raw, &evs);
    let t0 = s.rounds[0].start;
    assert_eq!(s.numbers_at(t0 + 30), [2, 2]);
    assert_eq!(s.rounds.len(), 1);
}

#[test]
fn sentries_caps_and_rounds() {
    let s = state();
    assert_eq!(s.sentries_at(10), [0, 1]);
    assert_eq!(s.sentries_at(56), [0, 0]);
    assert_eq!(s.sentries[0].end, SentryEnd::Destroyed { by: 3 });
    assert_eq!(s.caps.len(), 1);
    assert_eq!(s.caps[0].cappers, vec![1]);
    assert_eq!(s.caps[0].team, Some(Team::Red));
    assert_eq!(s.rounds.len(), 1);
    assert_eq!(s.rounds[0].winner, Some(Team::Red));
}

#[test]
fn a_round_start_respawns_everyone_and_clears_buildings() {
    let be = actor(4, Team::Blue, TfClass::Engineer);
    let rs = actor(3, Team::Red, TfClass::Sniper);
    let evs = vec![
        ev(0, 0, EventKind::RoundStart),
        ev(0, 0, EventKind::Spawn(be)),
        ev(0, 0, EventKind::Spawn(rs)),
        ev(5, 0, EventKind::Built { by: be, object: "obj_sentrygun".to_string() }),
        ev(6, 0, EventKind::Built { by: be, object: "OBJ_SENTRYGUN".to_string() }),
        ev(7, 0, EventKind::Carried { by: be, object: "OBJ_SENTRYGUN".to_string(), picked: true }),
        ev(9, 0, EventKind::Carried { by: be, object: "OBJ_SENTRYGUN".to_string(), picked: false }),
        ev(20, 0, EventKind::RoundStalemate),
        ev(30, 0, EventKind::RoundStart),
        ev(31, 0, EventKind::SetupEnd),
        ev(32, 0, EventKind::Left(3)),
        ev(40, 0, EventKind::GameOver),
    ];
    let s = GameState::build(&RawLog::default(), &evs);
    let ends: Vec<(u32, i64, i64, SentryEnd)> = s.sentries.iter().map(|x| (x.owner, x.from, x.to, x.end)).collect();
    assert_eq!(ends, vec![(4, 5, 7, SentryEnd::Carried), (4, 9, 30, SentryEnd::Cleared)], "one sentry at a time");
    let lives: Vec<(u32, i64, i64, LifeEnd)> = s.lives.iter().map(|l| (l.account, l.from, l.to, l.end)).collect();
    assert_eq!(lives, vec![(4, 0, 30, LifeEnd::NewRound), (3, 0, 30, LifeEnd::NewRound)]);
    assert_eq!(s.rounds.len(), 2);
    assert_eq!((s.rounds[0].num, s.rounds[0].end, s.rounds[0].winner), (1, Some(20), None));
    assert_eq!((s.rounds[1].num, s.rounds[1].setup_end, s.rounds[1].end), (2, Some(31), Some(40)));
}
