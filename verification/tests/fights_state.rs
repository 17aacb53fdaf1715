use hl::fights::{analyse, FightStats, Fights, UberPhase};
use hl::matchdata::Team;
use hl::rawlog::{parse, split_time};
use hl::situation::{kill_states, tally, KillState, Tallies, Tally};
use hl::state::{is_sentry, other, Charge, ChargeKind, ChargeSpan, GameState, Life, LifeEnd, Round, Sentry, SentryEnd};
use hl::tfclass::TfClass;

fn line(sec: u32, body: &str) -> String {
    format!("L 09/15/2026 - 20:{:02}:{:02}: {body}\n", sec / 60, sec % 60)
}
fn p(name: &str, id: u32, team: &str) -> String {
    format!("\"{name}<{id}><[U:1:{id}]><{team}>\"")
}
fn kill(sec: u32, k: &str, v: &str) -> String {
    line(sec, &format!("{k} killed {v} with \"x\" (attacker_position \"0 0 0\") (victim_position \"0 0 0\")"))
}

/// Red: sniper 1, medic 2, demo 3. Blue: sniper 11, medic 12, demo 13.
fn log() -> String {
    let (rs, rm, rd) = (p("rs", 1, "Red"), p("rm", 2, "Red"), p("rd", 3, "Red"));
    let (bs, bm, bd) = (p("bs", 11, "Blue"), p("bm", 12, "Blue"), p("bd", 13, "Blue"));
    let mut s = line(0, "World triggered \"Round_Start\"");
    for (who, class) in [(&rs, "sniper"), (&rm, "medic"), (&rd, "demoman"), (&bs, "sniper"), (&bm, "medic"), (&bd, "demoman")] {
        s += &line(0, &format!("{who} spawned as \"{class}\""));
    }
    s += &line(40, &format!("{bm} triggered \"chargeready\""));
    s += &kill(50, &rs, &bm);
    s += &kill(52, &bd, &rs);
    s += &kill(53, &rd, &bd);
    s += &kill(55, &rm, &bs);
    s += &line(80, &format!("{rm} triggered \"chargeready\""));
    s += &line(83, &format!("{bs} triggered \"damage\" against {rm} (damage \"100\") (weapon \"sniperrifle\")"));
    s += &line(84, &format!("{rm} triggered \"chargedeployed\" (medigun \"medigun\")"));
    s += &line(92, &format!("{rm} triggered \"chargeended\" (duration \"8\")"));
    s += &kill(95, &bs, &rd);
    s += &line(120, "World triggered \"Round_Win\" (winner \"Red\")");
    s
}

fn t0() -> i64 {
    split_time("L 09/15/2026 - 20:00:00: x").unwrap().0
}

fn life(account: u32, team: Team, class: TfClass, from: i64, to: i64, end: LifeEnd) -> Life {
    Life { account, team, class, from, to, end }
}

fn span(medic: u32, team: Team, kind: ChargeKind, from: i64, to: i64, medigun: Option<&str>) -> ChargeSpan {
    ChargeSpan { medic, team, kind, from, to, medigun: medigun.map(str::to_string) }
}

/// The state of the test log, as the game-state builder leaves it.
fn state() -> GameState {
    let t = t0();
    GameState {
        lives: vec![
            life(1, Team::Red, TfClass::Sniper, t, t + 52, LifeEnd::Killed { by: 13 }),
            life(2, Team::Red, TfClass::Medic, t, t + 121, LifeEnd::LogEnd),
            life(3, Team::Red, TfClass::Demoman, t, t + 95, LifeEnd::Killed { by: 11 }),
            life(11, Team::Blue, TfClass::Sniper, t, t + 55, LifeEnd::Killed { by: 2 }),
            life(12, Team::Blue, TfClass::Medic, t, t + 50, LifeEnd::Killed { by: 1 }),
            life(13, Team::Blue, TfClass::Demoman, t, t + 53, LifeEnd::Killed { by: 3 }),
        ],
        charges: vec![
            span(2, Team::Red, ChargeKind::Building, t, t + 80, None),
            span(12, Team::Blue, ChargeKind::Building, t, t + 40, None),
            span(12, Team::Blue, ChargeKind::Ready, t + 40, t + 50, None),
            span(2, Team::Red, ChargeKind::Ready, t + 80, t + 84, Some("medigun")),
            span(2, Team::Red, ChargeKind::Deployed, t + 84, t + 92, Some("medigun")),
            span(2, Team::Red, ChargeKind::Building, t + 92, t + 121, None),
        ],
        rounds: vec![Round { num: 1, start: t, setup_end: None, end: Some(t + 120), winner: Some(Team::Red) }],
        caps: vec![],
        sentries: vec![],
        lost_advantages: vec![],
    }
}

fn fights() -> Fights {
    let raw = parse(&log());
    let gs = state();
    analyse(&raw, &gs)
}

fn of(f: &Fights, id: u32) -> FightStats {
    f.players.iter().find(|s| s.account_id == id).cloned().unwrap_or_default()
}

#[test]
fn a_pick_on_a_charged_medic_is_an_opening_drop_that_got_traded() {
    let f = fights();
    let t = f.tags[0].unwrap();
    assert!(t.opening && t.first_of_round && t.drop && t.into_charge);
    assert!(t.traded && t.died_after, "the Sniper died 2 s later");
    assert!(!t.cleanup, "3 v 3 before it");
    let rs = of(&f, 1);
    assert_eq!((rs.kills, rs.opening_kills, rs.first_picks, rs.drops, rs.died_after_kill), (1, 1, 1, 1, 1));
    assert_eq!(of(&f, 12).first_deaths, 1);
}

#[test]
fn trades_and_cleanups() {
    let f = fights();
    let trade = f.tags[1].unwrap();
    assert!(trade.trade, "Blue's Demo avenged the Medic within 3 s");
    assert!(!trade.opening);
    let avenged = f.tags[2].unwrap();
    assert!(avenged.trade && !avenged.cleanup, "2 v 2 when Red's Demo got the kill");
    let cleanup = f.tags[3].unwrap();
    assert!(cleanup.cleanup, "2 v 1 when Red's Medic got the kill");
}

#[test]
fn a_new_fight_after_the_gap_and_deaths_around_ubers() {
    let f = fights();
    let t = f.tags[4].unwrap();
    assert!(t.opening && !t.first_of_round);
    assert_eq!(of(&f, 3).deaths_after_uber, 1);
    assert_eq!(of(&f, 11).forces, 1);
    assert_eq!(f.first_picks.len(), 1);
    assert_eq!(f.first_picks[0].after_s, 50);
    assert_eq!(of(&f, 1).rounds, 1);
}

#[test]
fn players_come_out_by_account_and_every_kill_is_tagged_once() {
    let f = fights();
    let ids: Vec<u32> = f.players.iter().map(|s| s.account_id).collect();
    assert_eq!(ids, [1, 2, 3, 11, 12, 13]);
    assert_eq!(f.tags.len(), 5);
    assert!(f.tags.iter().all(|t| t.is_some()));
    let kills: u32 = f.players.iter().map(|s| s.kills).sum();
    let deaths: u32 = f.players.iter().map(|s| s.deaths).sum();
    assert_eq!((kills, deaths), (5, 5));
}

#[test]
fn repeated_lines_team_kills_and_feigns_are_not_counted() {
    let (a, b, c) = (p("a", 1, "Red"), p("b", 2, "Blue"), p("c", 3, "Red"));
    let mut s = line(0, "World triggered \"Round_Start\"");
    s += &kill(10, &a, &b);
    s += &kill(10, &a, &b);
    s += &kill(11, &a, &c);
    s += &line(12, &format!("{b} killed {a} with \"x\" (customkill \"feign_death\") (attacker_position \"0 0 0\") (victim_position \"0 0 0\")"));
    let raw = parse(&s);
    assert_eq!(raw.kills.len(), 4);
    let f = analyse(&raw, &GameState::default());
    assert!(f.tags[0].is_some());
    assert!(f.tags[1].is_none(), "the same second, pair and weapon again");
    assert!(f.tags[2].is_none(), "a team kill");
    assert!(f.tags[3].is_none(), "a feign");
    assert_eq!(of(&f, 1).kills, 1);
    assert_eq!(f.first_picks[0].after_s, 10);
}

#[test]
fn the_state_answers_who_is_alive() {
    let s = state();
    let t = t0();
    assert_eq!(s.numbers_at(t), [3, 3]);
    assert_eq!(s.numbers_at(t + 50), [3, 2], "the Medic killed at :50 is not alive at :50");
    assert_eq!(s.numbers_at(t + 55), [2, 0]);
    assert!(s.class_alive(Team::Red, TfClass::Medic, t + 100));
    assert!(!s.class_alive(Team::Blue, TfClass::Medic, t + 50));
    assert_eq!(s.alive_at(t + 53).len(), 3);
    assert_eq!(s.round_at(t + 10).map(|r| r.num), Some(1));
    assert_eq!(s.round_at(t - 1), None);
    assert_eq!(other(Team::Red), Team::Blue);
    let _ = UberPhase::During;
}

#[test]
fn sentries_are_counted_while_up() {
    let mut s = GameState::default();
    s.sentries.push(Sentry { owner: 4, team: Team::Blue, from: 2, to: 56, end: SentryEnd::Destroyed { by: 3 } });
    assert_eq!(s.sentries_at(10), [0, 1]);
    assert_eq!(s.sentries_at(56), [0, 0]);
    assert!(is_sentry("OBJ_SENTRYGUN"));
    assert!(is_sentry("obj_sentrygun"));
    assert!(!is_sentry("OBJ_DISPENSER"));
}

#[test]
fn each_kill_has_its_numbers_advantage_and_fight() {
    let raw = parse(&log());
    let gs = state();
    let f = analyse(&raw, &gs);
    let s = kill_states(&raw, &gs, &f.tags);
    assert_eq!(s[0], Some((KillState { diff: 0, adv: -1 }, 0)), "3 v 3, Blue's uber ready");
    assert_eq!(s[1], Some((KillState { diff: -1, adv: 0 }, 0)));
    assert_eq!(s[3], Some((KillState { diff: 1, adv: 0 }, 0)));
    assert_eq!(s[4], Some((KillState { diff: -2, adv: 0 }, 1)), "Blue's Sniper died at :55, so 0 v 2, in a new fight");
}

#[test]
fn a_log_is_tallied_against_its_fights_and_rounds() {
    let raw = parse(&log());
    let gs = state();
    let mut t = Tallies::default();
    t.add(&raw, &gs);
    assert_eq!((t.logs, t.kills), (1, 5));
    let st = |diff: i8, adv: i8| KillState { diff, adv };
    let tl = |seen, won, kills, kills_won| Tally { seen, won, kills, kills_won };
    assert_eq!(tally(&t.fight, st(0, -1)), tl(1, 1, 1, 1));
    assert_eq!(tally(&t.fight, st(0, 0)), tl(2, 1, 1, 1), "an even kill is seen from both sides");
    assert_eq!(tally(&t.fight, st(1, 0)), tl(2, 2, 1, 1));
    assert_eq!(tally(&t.fight, st(-1, 0)), tl(2, 0, 1, 0));
    assert_eq!(tally(&t.fight, st(-2, 0)), tl(1, 1, 1, 1), "Blue won the second fight");
    assert_eq!(tally(&t.fight, st(2, 0)), tl(1, 0, 0, 0));
    assert_eq!(tally(&t.round, st(1, 0)), tl(2, 2, 1, 1), "Red won the round");
    assert_eq!(tally(&t.round, st(-2, 0)), tl(1, 0, 1, 0));
}

#[test]
fn charge_is_read_by_phase() {
    let s = state();
    let t = t0();
    assert_eq!(s.charge_at(Team::Red, t + 30), Charge::Building);
    assert_eq!(s.charge_at(Team::Red, t + 82), Charge::Ready);
    assert_eq!(s.charge_at(Team::Red, t + 86), Charge::Deployed);
    assert_eq!(s.charge_at(Team::Red, t + 95), Charge::Building, "a used charge starts again");
    assert_eq!(s.charge_at(Team::Blue, t + 45), Charge::Ready);
    assert_eq!(s.charge_at(Team::Blue, t + 50), Charge::NoMedic, "the Medic killed at :50 has no charge at :50");
    assert!(s.charge_at(Team::Blue, t + 45).ready());
    assert!(!s.charge_at(Team::Red, t + 86).ready());
}

#[test]
fn advantage_follows_the_charge_phases() {
    let s = state();
    let t = t0();
    assert_eq!(s.advantage_at(t + 30), None, "both building");
    assert_eq!(s.advantage_at(t + 45), Some(Team::Blue), "Blue ready, Red building");
    assert_eq!(s.advantage_at(t + 82), Some(Team::Red), "Blue's Medic was dropped");
    assert_eq!(s.advantage_at(t + 86), None, "a charge in use is spent, not held");
}

#[test]
fn a_full_charge_beats_a_building_one_and_the_later_full_one_counts() {
    let mut s = GameState::default();
    s.charges.push(span(2, Team::Red, ChargeKind::Ready, 0, 10, None));
    s.charges.push(span(5, Team::Red, ChargeKind::Building, 0, 10, None));
    assert_eq!(s.charge_at(Team::Red, 5), Charge::Ready);
    s.charges.push(span(5, Team::Red, ChargeKind::Deployed, 3, 10, None));
    assert_eq!(s.charge_at(Team::Red, 5), Charge::Deployed);
    s.charges.push(span(12, Team::Blue, ChargeKind::Ready, 0, 10, None));
    assert_eq!(s.advantage_at(1), None, "two ready charges");
}
