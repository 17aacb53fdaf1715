use hl::matchdata::Team;
use hl::rawlog::{parse, Actor, RawLog};
use hl::state::{Event, EventKind, GameState, Life, LifeEnd, LostAdvantage, Round};
use hl::matchdata::{NormalizedLog, PlayerLine, PlayerStats, LogFlags};
use hl::statecheck::{LostCause, Report};
use hl::steamid::SteamId;
use hl::tfclass::TfClass;

const P: &str = "L 09/15/2026 - 20:00:";
fn line(sec: u32, body: &str) -> String {
    format!("{P}{sec:02}: {body}\n")
}
const RED_MED: &str = "\"med<1><[U:1:1]><Red>\"";
const BLU_MED: &str = "\"bmed<2><[U:1:2]><Blue>\"";
const RED_SNIPER: &str = "\"flashy<3><[U:1:3]><Red>\"";
const BLU_ENGI: &str = "\"engi<4><[U:1:4]><Blue>\"";

fn log() -> String {
    [
        line(0, "World triggered \"Round_Start\""),
        line(0, &format!("{RED_MED} spawned as \"medic\"")),
        line(0, &format!("{BLU_MED} spawned as \"medic\"")),
        line(0, &format!("{RED_SNIPER} spawned as \"sniper\"")),
        line(0, &format!("{BLU_ENGI} spawned as \"engineer\"")),
        line(2, &format!("{BLU_ENGI} triggered \"player_builtobject\" (object \"OBJ_SENTRYGUN\") (position \"0 0 0\")")),
        line(10, &format!("{RED_MED} triggered \"first_heal_after_spawn\" (time \"10\")")),
        line(40, &format!("{BLU_MED} triggered \"chargeready\"")),
        line(50, &format!("{RED_SNIPER} killed {BLU_MED} with \"sniperrifle\" (customkill \"headshot\") (attacker_position \"0 0 0\") (victim_position \"0 0 0\")")),
        line(50, &format!("{BLU_MED} triggered \"medic_death_ex\" (uberpct \"100\")")),
        line(50, &format!("{RED_MED} triggered \"chargeready\"")),
        line(55, &format!("{RED_MED} triggered \"chargedeployed\" (medigun \"kritzkrieg\")")),
        line(56, &format!("{RED_SNIPER} triggered \"killedobject\" (object \"OBJ_SENTRYGUN\") (weapon \"sniperrifle\") (objectowner \"{}\") (attacker_position \"0 0 0\")", &BLU_ENGI[1..BLU_ENGI.len() - 1])),
        line(58, &format!("{RED_SNIPER} committed suicide with \"world\" (attacker_position \"0 0 0\")")),
        line(59, &format!("{RED_MED} triggered \"chargeended\" (duration \"4\")")),
        line(59, "Team \"Red\" triggered \"pointcaptured\" (cp \"0\") (cpname \"#mid\") (numcappers \"1\") (player1 \"med<1><[U:1:1]><Red>\") (position1 \"0 0 0\")"),
        line(59, "World triggered \"Round_Win\" (winner \"Red\")"),
    ]
    .concat()
}

fn actor(account: u32, team: Team, class: TfClass) -> Actor {
    Actor { account, team: Some(team), class: Some(class) }
}

fn ev(at: i64, after_kills: usize, kind: EventKind) -> Event {
    Event { at, after_kills, kind }
}

/// The event lines of `log()`, on a clock where its first line is at `base`,
/// with `k0` kill lines before them in the file.
fn events(base: i64, k0: usize) -> Vec<Event> {
    let rm = actor(1, Team::Red, TfClass::Medic);
    let bm = actor(2, Team::Blue, TfClass::Medic);
    let rs = actor(3, Team::Red, TfClass::Sniper);
    let be = actor(4, Team::Blue, TfClass::Engineer);
    let sentry = || "OBJ_SENTRYGUN".to_string();
    vec![
        ev(base, k0, EventKind::RoundStart),
        ev(base, k0, EventKind::Spawn(rm)),
        ev(base, k0, EventKind::Spawn(bm)),
        ev(base, k0, EventKind::Spawn(rs)),
        ev(base, k0, EventKind::Spawn(be)),
        ev(base + 2, k0, EventKind::Built { by: be, object: sentry() }),
        ev(base + 10, k0, EventKind::FirstHeal(rm)),
        ev(base + 40, k0, EventKind::ChargeReady(bm)),
        ev(base + 50, k0 + 1, EventKind::MedicDied(bm)),
        ev(base + 50, k0 + 1, EventKind::ChargeReady(rm)),
        ev(base + 55, k0 + 1, EventKind::ChargeDeployed { medic: rm, medigun: "kritzkrieg".to_string() }),
        ev(base + 56, k0 + 1, EventKind::ObjectKilled { by: rs, owner: Some(4), object: sentry() }),
        ev(base + 58, k0 + 1, EventKind::Suicide(rs)),
        ev(base + 59, k0 + 1, EventKind::ChargeEnded(rm)),
        ev(
            base + 59,
            k0 + 1,
            EventKind::PointCaptured { team: Some(Team::Red), cp: 0, name: "#mid".to_string(), cappers: vec![1] },
        ),
        ev(base + 59, k0 + 1, EventKind::RoundWin(Some(Team::Red))),
    ]
}

fn player(id: u32, team: Team, ubers: i64, drops: i64) -> PlayerLine {
    let stats = PlayerStats { ubers, drops, ..PlayerStats::default() };
    PlayerLine { id: SteamId::from_account_id(id), name: None, team, stats, classes: vec![], vs: vec![] }
}

fn normalized(players: Vec<PlayerLine>) -> NormalizedLog {
    NormalizedLog {
        log_id: 77,
        title: None,
        map: None,
        played_at: None,
        duration_s: 0,
        red_score: 0,
        blue_score: 0,
        flags: LogFlags::default(),
        players,
        rounds: vec![],
    }
}

#[test]
fn a_log_is_checked_against_logs_tf_and_its_own_lines() {
    let mut raw: RawLog = parse(&log());
    raw.shift(-raw.round_starts[0]);
    let mut s = GameState::build(&raw, &events(0, 0));
    let la = |at: i64, medic: u32, team: Option<Team>| LostAdvantage { at, medic, team, secs: 5 };
    s.lost_advantages = vec![la(45, 1, Some(Team::Red)), la(51, 2, Some(Team::Blue)), la(53, 1, Some(Team::Red)), la(53, 1, None)];
    let log = normalized(vec![player(1, Team::Red, 1, 0), player(2, Team::Blue, 0, 0), player(3, Team::Red, 0, 0)]);
    let mut r = Report::default();
    r.add_log(77, &log, &raw, &s);
    assert_eq!(r.logs, 1);
    assert_eq!((r.kills, r.kills_without_life), (1, 0), "the kill ended the Medic's life");
    assert_eq!(r.medics, 2, "the Sniper had no charge to compare");
    assert!(r.uber_mismatch.is_empty());
    assert_eq!(r.drop_mismatch, vec![(77, 2, 0, 1)], "Blue's Medic died holding a ready charge");
    assert_eq!((r.seconds, r.max_alive, r.seconds_over_nine, r.logs_over_nine), (59, 2, 0, 0));
    assert_eq!(r.over_nine_example, None);
    assert_eq!(r.lost_ad.none_other, 1, "Blue held the advantage at :44");
    assert_eq!(r.lost_ad.none_enemy_ready, 1, "Red's charge came up at :50");
    assert_eq!(r.lost_ad.held_other, 1, "Red held it at :52 and nothing happened");
    assert_eq!((r.lost_ad.held_enemy_ready, r.lost_ad.held_medic_died), (0, 0));
    assert_eq!(LostCause::HeldMedicDied.text(), "held the advantage, Medic died");
}

#[test]
fn too_many_alive_is_found_and_the_worst_moment_kept() {
    let mut s = GameState::default();
    s.rounds.push(Round { num: 1, start: 0, setup_end: None, end: Some(30), winner: None });
    for account in 1..=10 {
        s.lives.push(Life { account, team: Team::Red, class: TfClass::Scout, from: 0, to: 20, end: LifeEnd::LogEnd });
    }
    s.lives.push(Life { account: 11, team: Team::Red, class: TfClass::Scout, from: 16, to: 18, end: LifeEnd::LogEnd });
    let mut r = Report::default();
    r.add_log(5, &normalized(vec![]), &RawLog::default(), &s);
    assert_eq!(r.seconds, 30);
    assert_eq!(r.max_alive, 11);
    assert_eq!(r.seconds_over_nine, 20);
    assert_eq!(r.over_nine_at_start, 15, "a sub swapping in at the start");
    assert_eq!(r.over_nine_example, Some((5, 16, [11, 0])), "the first of the worst moments");
    assert_eq!(r.logs_over_nine, 1);
    r.add_log(6, &normalized(vec![]), &RawLog::default(), &GameState::default());
    assert_eq!((r.logs, r.logs_over_nine), (2, 1));
}
