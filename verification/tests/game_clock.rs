use hl::analysis::{analysis, players, streaks, ClassDamage, Clock, FirstPickView, PlacedKill, SegmentIn, Streak};
use hl::fights::{Fights, FirstPick, KillTags};
use hl::kills::RoundWindow;
use hl::steamid::SteamId;
use hl::state::{Charge, ChargeKind, ChargeSpan, GameState, Life, LifeEnd};
use hl::rawlog::{Actor, Chat, Damage, Kill};
use hl::matchdata::Team;
use hl::tfclass::TfClass;
use hl::normalize::normalize_text;

fn clock() -> Clock {
    let text = r#"{"players": {}, "rounds": [
        {"start_time": 1000, "length": 300},
        {"start_time": 100, "length": 200},
        {"start_time": 5000}
    ]}"#;
    let log = normalize_text(1, text).unwrap();
    Clock::new(&log)
}

#[test]
fn rounds_are_laid_end_to_end_oldest_first() {
    let c = clock();
    let rows: Vec<(i64, i64, i64, i128)> = c.rounds.iter().map(|r| (r.round_num, r.start, r.len, r.offset)).collect();
    assert_eq!(rows, vec![(2, 100, 200, 0), (1, 1000, 300, 200)]);
    assert_eq!(c.duration(), 500);
}

#[test]
fn a_moment_is_placed_in_game_time() {
    let c = clock();
    assert_eq!(c.game(150), Some((50, 2)));
    assert_eq!(c.game(300), Some((200, 2)), "a round's end is inside it");
    assert_eq!(c.game(1100), Some((300, 1)));
    assert_eq!(c.game(500), None, "the break between rounds is not game time");
}

#[test]
fn without_stored_segments_the_log_is_one_map() {
    let c = clock();
    let segs = c.map_segments(&[], &Some("pl_upward".to_string()));
    assert_eq!(segs.len(), 1);
    let s = &segs[0];
    assert_eq!(s.map.as_deref(), Some("pl_upward"));
    assert_eq!((s.first_round, s.last_round), (2, 1));
    assert_eq!(s.rounds, vec![2, 1]);
    assert_eq!((s.start_s, s.end_s), (0, 500));
}

#[test]
fn stored_segments_are_placed_on_the_clock() {
    let c = clock();
    let seg = |first: i64, last: i64| SegmentIn { map: Some("koth_product".to_string()), first_round: first, last_round: last, red_wins: 2, blue_wins: 1 };
    let out = c.map_segments(&[seg(2, 1), seg(1, 2), seg(7, 9)], &None);
    assert_eq!(out[0].rounds, vec![2, 1]);
    assert_eq!((out[0].start_s, out[0].end_s), (0, 500));
    assert_eq!(out[1].rounds, vec![1], "a last round played before the first gives the first alone");
    assert_eq!((out[1].start_s, out[1].end_s), (200, 200));
    assert_eq!(out[2].rounds, vec![7]);
    assert_eq!((out[2].start_s, out[2].end_s), (0, 500));
    assert_eq!((out[2].red_wins, out[2].blue_wins), (2, 1));
}

#[test]
fn a_death_ends_a_streak() {
    let ks = [(1, 10), (1, 11), (2, 1), (1, 12), (1, 13), (1, 14)];
    let s = streaks(&ks);
    assert_eq!(s.len(), 1, "two kills then a death is not a streak");
    assert_eq!(s[0], Streak { player: 1, kills: vec![3, 4, 5] });
    let victims: Vec<u32> = s[0].kills.iter().map(|&k| ks[k].1).collect();
    assert_eq!(victims, vec![12, 13, 14]);
}

#[test]
fn streaks_a_death_ends_come_before_those_the_end_closes() {
    let ks = [(5, 1), (5, 2), (6, 3), (5, 4), (6, 7), (6, 8), (9, 5)];
    let s = streaks(&ks);
    assert_eq!(s, vec![Streak { player: 5, kills: vec![0, 1, 3] }, Streak { player: 6, kills: vec![2, 4, 5] }]);
}

fn hit(at: i64, from: (u32, Option<TfClass>), to: (u32, Option<TfClass>), amount: i64, live: bool) -> Damage {
    Damage {
        at,
        live,
        attacker: Actor { account: from.0, team: None, class: from.1 },
        victim: Actor { account: to.0, team: None, class: to.1 },
        amount,
    }
}

#[test]
fn damage_is_summed_by_player_other_class_and_round() {
    let c = clock();
    let sol = Some(TfClass::Soldier);
    let med = Some(TfClass::Medic);
    let hits = vec![
        hit(150, (7, sol), (3, med), 100, true),
        hit(160, (7, sol), (3, med), 900, true),
        hit(1100, (7, sol), (3, med), 50, true),
        hit(170, (3, med), (7, sol), 20, true),
        hit(180, (7, sol), (7, sol), 60, true),
        hit(190, (7, sol), (4, None), 70, true),
        hit(500, (7, sol), (3, med), 5, true),
        hit(151, (7, sol), (3, med), 40, false),
    ];
    let line = |account_id: u32, other_class: TfClass, round_num: i64, dealt: i128, taken: i128| ClassDamage { account_id, other_class, round_num, dealt, taken };
    let capped = c.damage_by_class(&hits, true);
    assert_eq!(
        capped,
        vec![
            line(3, TfClass::Soldier, 0, 0, 5),
            line(3, TfClass::Soldier, 1, 0, 50),
            line(3, TfClass::Soldier, 2, 20, 550),
            line(4, TfClass::Soldier, 2, 0, 70),
            line(7, TfClass::Medic, 0, 5, 0),
            line(7, TfClass::Medic, 1, 50, 0),
            line(7, TfClass::Medic, 2, 550, 20),
        ]
    );
    let uncapped = c.damage_by_class(&hits, false);
    assert_eq!(uncapped[2], line(3, TfClass::Soldier, 2, 20, 1000));
}

fn kill(at: i64, killer: u32, victim: u32, custom: Option<&str>) -> Kill {
    Kill {
        at,
        round: 1,
        live: true,
        killer: Actor { account: killer, team: None, class: None },
        victim: Actor { account: victim, team: None, class: None },
        weapon: "scattergun".to_string(),
        custom: custom.map(str::to_string),
        assister: None,
        killer_pos: None,
        victim_pos: None,
    }
}

#[test]
fn kills_are_put_in_game_time_order() {
    let c = clock();
    let ks = vec![kill(1050, 1, 2, None), kill(150, 3, 4, None), kill(700, 5, 6, None), kill(150, 7, 8, Some("feign_death")), kill(150, 9, 1, None)];
    let placed = c.kills_on_clock(&ks);
    let p = |index: usize, t: i128, round_num: i64| PlacedKill { index, t, round_num };
    assert_eq!(placed, vec![p(1, 50, 2), p(4, 50, 2), p(0, 250, 1)]);
    let pairs: Vec<(u32, u32)> = placed.iter().map(|k| (ks[k.index].killer.account, ks[k.index].victim.account)).collect();
    assert_eq!(pairs, vec![(3, 4), (9, 1), (1, 2)]);
}

#[test]
fn damage_is_bucketed_by_thirty_game_seconds() {
    let c = clock();
    let sol = Some(TfClass::Soldier);
    let hits = vec![
        hit(150, (7, sol), (3, None), 100, true),
        hit(1100, (7, sol), (3, None), 40, true),
        hit(1299, (3, None), (7, sol), 30, true),
        hit(300, (7, sol), (3, None), 900, true),
        hit(500, (7, sol), (3, None), 5, true),
        hit(160, (7, sol), (7, sol), 5, true),
    ];
    let series = c.damage_series(&hits, true);
    assert_eq!(series.len(), 2);
    let mut three = vec![0i128; 17];
    three[16] = 30;
    let mut seven = vec![0i128; 17];
    seven[1] = 100;
    seven[6] = 450;
    seven[10] = 40;
    assert_eq!(series, vec![(3, three), (7, seven)]);
}

#[test]
fn players_are_named_and_the_owner_marked() {
    let text = r#"{"players": {
        "[U:1:5]": {"team": "Red", "class_stats": [{"type": "medic", "total_time": 900}, {"type": "scout", "total_time": 30}]},
        "[U:1:6]": {"team": "Blue"}
    }, "names": {"[U:1:5]": "Flashy"}}"#;
    let log = normalize_text(1, text).unwrap();
    let me = SteamId::parse("[U:1:6]").unwrap();
    let ps = players(&log, Some(me));
    let row: Vec<(u32, String, bool, Option<TfClass>)> = ps.iter().map(|p| (p.account_id, p.name.clone(), p.is_me, p.main_class)).collect();
    assert_eq!(row, vec![(6, "[U:1:6]".to_string(), true, None), (5, "Flashy".to_string(), false, Some(TfClass::Medic))]);
}

#[test]
fn the_play_by_play_runs_in_game_time() {
    let text = r#"{"players": {"[U:1:5]": {"team": "Red"}, "[U:1:6]": {"team": "Blue"}},
        "rounds": [
            {"start_time": 1000, "length": 300, "events": [{"type": "pointcap", "time": 1100, "team": "Red", "point": 2}]},
            {"start_time": 100, "length": 200, "events": [
                {"type": "charge", "time": 150, "team": "Blue", "steamid": "[U:1:6]", "medigun": "kritzkrieg"},
                {"type": "medic_death", "time": 160, "team": "Blue"}
            ]}
        ]}"#;
    let log = normalize_text(1, text).unwrap();
    let c = Clock::new(&log);
    let chat = vec![
        Chat { at: 1010, account: Some(6), team_chat: true, message: "gg".to_string() },
        Chat { at: 500, account: None, team_chat: false, message: "between rounds".to_string() },
    ];
    let kills = vec![kill(150, 5, 6, None), kill(160, 5, 7, None), kill(170, 5, 8, None)];
    let events = c.play_by_play(&log, &chat, &kills);
    let kinds: Vec<&str> = events.iter().map(|e| e.kind.as_str()).collect();
    let at = |round: usize, ev: usize| {
        let r = &log.rounds[round];
        c.game(r.start_time.unwrap() + r.events[ev].at_s).unwrap().0
    };
    let mut want: Vec<(i128, &str)> = vec![(at(1, 0), "charge"), (at(0, 0), "pointcap"), (210, "chat"), (70, "streak")];
    want.sort_by_key(|w| w.0);
    let got: Vec<(i128, &str)> = events.iter().map(|e| (e.t, e.kind.as_str())).collect();
    assert_eq!(got, want);
    assert_eq!(kinds.len(), 4, "a medic death and chat between rounds are not shown");
    let streak = events.iter().find(|e| e.kind == "streak").unwrap();
    assert_eq!((streak.player, streak.team, streak.text.as_deref()), (Some(5), Some(Team::Red), Some("3")));
    assert_eq!(streak.victims, vec![6, 7, 8]);
    let said = events.iter().find(|e| e.kind == "chat").unwrap();
    assert_eq!((said.team, said.team_chat, said.text.as_deref()), (Some(Team::Blue), true, Some("gg")));
    let uber = events.iter().find(|e| e.kind == "charge").unwrap();
    assert_eq!((uber.player, uber.text.as_deref()), (Some(6), Some("kritzkrieg")));
    let cap = events.iter().find(|e| e.kind == "pointcap").unwrap();
    assert_eq!(cap.text.as_deref(), Some("2"));
}

#[test]
fn first_picks_are_found_again_and_placed() {
    let c = clock();
    let kills = vec![kill(700, 1, 2, None), kill(1050, 1, 2, None), kill(160, 3, 4, None)];
    let picks = vec![
        FirstPick { round: 1, after_s: 12, killer: 1, victim: 2 },
        FirstPick { round: 1, after_s: 5, killer: 3, victim: 4 },
        FirstPick { round: 2, after_s: 9, killer: 3, victim: 4 },
    ];
    let out = c.first_picks(&picks, &kills);
    assert_eq!(out, vec![FirstPickView { t: 60, round_num: 2, after_s: 5, killer: 3, victim: 4 }], "the first matching kill counts, even outside every round");
}

#[test]
fn the_whole_analysis_of_a_log() {
    let text = r#"{"info": {"map": "koth_product_rc9"}, "players": {"[U:1:5]": {"team": "Red"}, "[U:1:6]": {"team": "Blue"}},
        "rounds": [{"start_time": 1000, "length": 300}, {"start_time": 100, "length": 200}]}"#;
    let log = normalize_text(42, text).unwrap();
    let mut k = kill(150, 5, 6, None);
    k.killer_pos = Some([1, 2, 3]);
    let kills = vec![kill(1100, 6, 5, None), k];
    let hits = vec![hit(150, (5, Some(TfClass::Scout)), (6, Some(TfClass::Medic)), 80, true)];
    let gs = GameState { lives: vec![], charges: vec![], rounds: vec![], caps: vec![], sentries: vec![], lost_advantages: vec![] };
    let tags = KillTags { opening: true, ..Default::default() };
    let fights = Fights { tags: vec![None, Some(tags)], players: vec![], first_picks: vec![] };
    let windows = vec![RoundWindow { start: 1000, length: 300, map: Some("koth_product_final".to_string()) }];
    let a = analysis(&log, &gs, fights, &kills, &[], &hits, &windows, &[], None, true);
    assert_eq!(a.log_id, 42);
    assert_eq!(a.map.as_deref(), Some("koth_product_rc9"));
    assert_eq!(a.duration_s, 500);
    assert_eq!(a.rounds, vec![(2, 0, 200), (1, 200, 500)]);
    assert_eq!(a.players.len(), 2);
    let order: Vec<usize> = a.kills.iter().map(|p| p.index).collect();
    assert_eq!(order, vec![1, 0]);
    assert_eq!(a.kills[0].map.as_deref(), Some("koth_product_rc9"), "outside every window the log's map is used");
    assert_eq!(a.kills[1].map.as_deref(), Some("koth_product_final"));
    assert_eq!(a.kills[0].tags, Some(tags));
    assert_eq!(a.kills[1].tags, None);
    assert!(a.fights.is_empty());
    assert!(a.has_positions);
    assert!(a.damage_capped);
    assert_eq!(a.damage.len(), 2);
    assert_eq!(a.damage_series.len(), 1);
    assert_eq!(a.segments.len(), 1);
    assert_eq!(a.segments[0].rounds, vec![2, 1]);
    assert!(a.events.is_empty());
    assert!(a.first_picks.is_empty());
    assert_eq!(a.state.red_alive, vec![0u8; 500]);
    assert_eq!(a.state.advantage.len(), 500);
    assert!(a.state.red_charge.iter().all(|c| *c == Charge::NoMedic));
}

#[test]
fn the_state_is_sampled_each_game_second_in_stable_teams() {
    // Round 2 (100..300, game 0..200) is played in swapped colours.
    let text = r#"{"players": {"[U:1:5]": {"team": "Red"}, "[U:1:6]": {"team": "Red"}, "[U:1:7]": {"team": "Blue"}},
        "rounds": [
            {"start_time": 1000, "length": 300},
            {"start_time": 100, "length": 200, "players": {
                "[U:1:5]": {"team": "Blue"}, "[U:1:6]": {"team": "Blue"}, "[U:1:7]": {"team": "Red"}
            }}
        ]}"#;
    let log = normalize_text(1, text).unwrap();
    let c = Clock::new(&log);
    let life = |account: u32, team: Team, from: i64, to: i64| Life { account, team, class: TfClass::Medic, from, to, end: LifeEnd::Left };
    let gs = GameState {
        lives: vec![life(5, Team::Blue, 100, 150), life(6, Team::Blue, 100, 300), life(7, Team::Blue, 1000, 1300)],
        charges: vec![ChargeSpan { medic: 5, team: Team::Blue, kind: ChargeKind::Ready, from: 110, to: 120, medigun: None }],
        rounds: vec![],
        caps: vec![],
        sentries: vec![],
        lost_advantages: vec![],
    };
    let st = c.state_series(&gs, &log);
    assert_eq!(st.red_alive.len(), 500);
    // Game second 20 is 120 on the log clock, in round 2: the stable Red wore Blue.
    assert_eq!((st.red_alive[20], st.blue_alive[20]), (2, 0));
    assert_eq!((st.red_alive[60], st.blue_alive[60]), (1, 0));
    assert_eq!(st.red_charge[15], Charge::Ready);
    assert_eq!(st.advantage[15], 1, "the stable Red holds the advantage");
    // Game second 250 is 1050 on the log clock, in round 1.
    assert_eq!((st.red_alive[250], st.blue_alive[250]), (0, 1));
}
