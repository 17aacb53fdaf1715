use hl::matchdata::Team;
use hl::rawlog::{frame_offset, hits_capped, parse, split_time, unzip, Damage, RawLog};
use hl::tfclass::TfClass;

const LINES: &str = r#"L 09/15/2026 - 19:45:07: "flashy<6><[U:1:139131191]><Red>" changed role to "sniper"
L 09/15/2026 - 19:45:07: "Mifune<15><[U:1:164932866]><Blue>" spawned as "Heavy"
L 09/15/2026 - 19:45:08: "flashy<6><[U:1:139131191]><Red>" killed "Mifune<15><[U:1:164932866]><Blue>" with "sniperrifle" (attacker_position "1 2 3") (victim_position "4 5 6")
L 09/15/2026 - 19:45:10: World triggered "Round_Start"
L 09/15/2026 - 19:45:20: "flashy<6><[U:1:139131191]><Red>" killed "Mifune<15><[U:1:164932866]><Blue>" with "sniperrifle" (customkill "headshot") (attacker_position "-10 20 -30") (victim_position "40 -50 60")
L 09/15/2026 - 19:45:20: "odd "name"<9><[U:1:5]><Red>" triggered "kill assist" against "Mifune<15><[U:1:164932866]><Blue>" (assister_position "0 0 0")
L 09/15/2026 - 19:45:21: "Mifune<15><[U:1:164932866]><Blue>" killed "odd "name"<9><[U:1:5]><Red>" with "tomislav" (customkill "feign_death") (attacker_position "0 0 0") (victim_position "0 0 0")
L 09/15/2026 - 19:45:22: "flashy<6><[U:1:139131191]><Red>" say "gogo"
L 09/15/2026 - 19:46:00: World triggered "Round_Win" (winner "Red")
L 09/15/2026 - 19:46:05: "flashy<6><[U:1:139131191]><Red>" killed "Mifune<15><[U:1:164932866]><Blue>" with "kukri" (attacker_position "0 0 0") (victim_position "0 0 0")
L 09/15/2026 - 19:46:06: "SourceTV<2><BOT><>" say "bot line"
L 09/15/2026 - 19:46:08: World triggered "Round_Start"
L 09/15/2026 - 19:46:09: World triggered "Round_Stalemate"
L 09/15/2026 - 19:46:10: "flashy<6><[U:1:139131191]><Red>" killed "Mifune<15><[U:1:164932866]><Blue>" with "kukri" (attacker_position "0 0 0") (victim_position "0 0 0")
L 09/15/2026 - 19:46:07: "Bot<3><BOT><Blue>" killed "flashy<6><[U:1:139131191]><Red>" with "minigun" (attacker_position "0 0 0") (victim_position "0 0 0")
"#;

#[test]
fn times_are_the_server_clock_read_as_utc() {
    let (t, body) = split_time("L 09/15/2026 - 19:45:07: x").unwrap();
    assert_eq!(t, 1_789_501_507);
    assert_eq!(body, "x");
    assert_eq!(split_time("L 01/01/1970 - 00:00:00: y").unwrap().0, 0);
    assert!(split_time("garbage").is_none());
}

#[test]
fn parses_kills_classes_positions_and_assists() {
    let log = parse(LINES);
    assert_eq!(log.rounds, 2);
    assert_eq!(log.kills.len(), 5, "a bot's kill is not credited to its victim");
    assert!(!log.kills[4].live, "a stalemate ends the round too");

    let pregame = &log.kills[0];
    assert!(!pregame.live && !pregame.counts(), "before Round_Start");

    let pick = &log.kills[1];
    assert!(pick.counts());
    assert_eq!(pick.round, 1);
    assert_eq!(pick.killer.class, Some(TfClass::Sniper));
    assert_eq!(pick.victim.class, Some(TfClass::Heavy), "`Heavy` in old logs is heavyweapons");
    assert_eq!(pick.victim.team, Some(Team::Blue));
    assert_eq!(pick.custom.as_deref(), Some("headshot"));
    assert_eq!(pick.killer_pos, Some([-10, 20, -30]));
    assert_eq!(pick.victim_pos, Some([40, -50, 60]));
    assert_eq!(pick.assister, Some(5), "a quote in the name does not break the actor");

    assert!(!log.kills[2].counts(), "a feign death is not a kill");
    assert!(!log.kills[3].live, "after Round_Win is humiliation");
}

#[test]
fn frame_offset_is_the_hour_that_lines_rounds_up() {
    // The Swiftwater scrim: raw rounds at 19:45:12 CEST, logs.tf at 17:45:12.
    let raw = [1_789_501_512, 1_789_502_217, 1_789_499_987];
    let logstf = [1_789_494_312, 1_789_495_017, 1_789_492_787];
    assert_eq!(frame_offset(&raw, &logstf), Some(-7200));
    assert_eq!(frame_offset(&raw, &raw), Some(0));
    assert_eq!(frame_offset(&raw, &[5]), None, "nothing lines up");
}

#[test]
fn chat_is_kept_and_bots_are_skipped() {
    let log = parse(LINES);
    assert_eq!(log.chat.len(), 1);
    assert_eq!(log.chat[0].message, "gogo");
    assert!(!log.chat[0].team_chat);
}

#[test]
fn round_starts_and_times_are_read_from_the_lines() {
    let log = parse(LINES);
    assert_eq!(log.round_starts, vec![1_789_501_510, 1_789_501_568]);
    assert_eq!(log.kills[1].at, 1_789_501_520);
    assert_eq!(log.kills[1].killer.account, 139_131_191);
    assert_eq!(log.kills[1].weapon, "sniperrifle");
    assert_eq!(log.chat[0].account, Some(139_131_191));
}

#[test]
fn shifting_moves_every_time_and_back() {
    let mut log = parse(LINES);
    let before: RawLog = log.clone();
    log.shift(-7200);
    assert_eq!(log.kills[1].at, before.kills[1].at - 7200);
    assert_eq!(log.round_starts[0], before.round_starts[0] - 7200);
    assert_eq!(log.chat[0].at, before.chat[0].at - 7200);
    log.shift(7200);
    assert_eq!(log.kills, before.kills);
    assert_eq!(log.chat, before.chat);
    assert_eq!(log.round_starts, before.round_starts);
}

#[test]
fn team_say_and_damage_lines() {
    let text = "L 09/15/2026 - 19:45:10: World triggered \"Round_Start\"\n\
L 09/15/2026 - 19:45:11: \"a<1><[U:1:7]><Red>\" say_team \"push\"\n\
L 09/15/2026 - 19:45:12: \"a<1><[U:1:7]><Red>\" triggered \"damage\" against \"b<2><[U:1:8]><Blue>\" (damage \"500\") (realdamage \"120\") (weapon \"tf_projectile_rocket\")\n";
    let log = parse(text);
    assert_eq!(log.chat.len(), 1);
    assert!(log.chat[0].team_chat);
    assert_eq!(log.chat[0].message, "push");
    assert_eq!(log.damage.len(), 1);
    let d: Damage = log.damage[0];
    assert_eq!(d.counted(true), 450);
    assert_eq!(d.counted(false), 500);
}

#[test]
fn hits_are_capped_only_for_logs_after_the_change() {
    assert!(hits_capped(None));
    assert!(hits_capped(Some(1_443_600_000)));
    assert!(!hits_capped(Some(1_443_599_999)));
}

#[test]
fn a_raw_log_that_is_not_a_zip_is_refused() {
    assert_eq!(unzip(b"not a zip").unwrap_err(), "raw log is not a zip");
}

#[test]
fn two_shifts_are_one() {
    let mut twice = parse(LINES);
    let mut once = twice.clone();
    twice.shift(-7200);
    twice.shift(300);
    once.shift(-6900);
    assert_eq!(twice.kills, once.kills);
    assert_eq!(twice.chat, once.chat);
    assert_eq!(twice.round_starts, once.round_starts);
    assert_eq!(twice.damage, once.damage);
    assert_eq!(twice.map_loads, once.map_loads);
}
