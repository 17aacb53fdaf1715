use hl::matchdata::Team;
use hl::normalize::{normalize, normalize_text, parse_ids, round_starts, Json};
use hl::tfclass::TfClass;

fn num(n: i64) -> Json {
    Json::Number(n)
}

fn text(s: &str) -> Json {
    Json::Str(s.to_string())
}

fn obj(fields: Vec<(&str, Json)>) -> Json {
    Json::Object(fields.into_iter().map(|(k, v)| (k.to_string(), v)).collect())
}

fn player(team: &str, kills: i64) -> Json {
    obj(vec![
        ("team", text(team)),
        ("kills", num(kills)),
        ("deaths", text(" 3 ")),
        ("dmg", Json::Bool(true)),
        (
            "class_stats",
            Json::Array(vec![
                obj(vec![("type", text("scout")), ("total_time", num(100)), ("kills", num(2))]),
                obj(vec![("type", text("undefined")), ("total_time", num(50))]),
                obj(vec![("type", text("medic")), ("total_time", num(30))]),
                obj(vec![("type", text("scout")), ("total_time", num(20)), ("kills", num(1))]),
            ]),
        ),
    ])
}

fn sample() -> Json {
    obj(vec![
        (
            "info",
            obj(vec![
                ("title", text("serveme: RED vs BLU")),
                ("map", text("")),
                ("date", num(1_700_000_000)),
                ("hasRealDamage", Json::Bool(true)),
                ("hasHS", num(1)),
            ]),
        ),
        ("length", num(1800)),
        (
            "teams",
            obj(vec![("Red", obj(vec![("score", num(3))])), ("Blue", obj(vec![("score", text("2"))]))]),
        ),
        (
            "players",
            obj(vec![
                ("[U:1:300]", player("Red", 10)),
                ("[U:1:200]", player("Blue", 20)),
                ("BOT", player("Red", 5)),
                ("[U:1:100]", player("Red", 30)),
                ("[U:1:400]", obj(vec![("team", Json::Null)])),
                ("[U:1:150]", player("Blue", 40)),
            ]),
        ),
        ("names", obj(vec![("[U:1:300]", text("three")), ("[U:1:200]", text(""))])),
        (
            "classkills",
            obj(vec![("[U:1:300]", obj(vec![("soldier", num(4)), ("scout", num(1)), ("soldier", num(2))]))]),
        ),
        ("classdeaths", obj(vec![("[U:1:300]", obj(vec![("medic", num(2)), ("nobody", num(9))]))])),
        (
            "rounds",
            Json::Array(vec![
                obj(vec![
                    ("start_time", num(1_700_000_100)),
                    ("length", num(300)),
                    ("winner", text("Red")),
                    ("team", obj(vec![("Red", obj(vec![("kills", num(12))])), ("Blue", obj(vec![("kills", num(8))]))])),
                    (
                        "events",
                        Json::Array(vec![
                            obj(vec![("type", text("pointcap")), ("time", num(150)), ("team", text("Red")), ("point", num(1))]),
                            obj(vec![("type", text("round_win")), ("time", num(400)), ("team", text("Red"))]),
                        ]),
                    ),
                ]),
                obj(vec![
                    ("start_time", num(1_700_000_500)),
                    ("length", num(200)),
                    ("winner", text("Blue")),
                    (
                        "players",
                        obj(vec![
                            ("[U:1:300]", obj(vec![("team", text("Blue"))])),
                            ("[U:1:100]", obj(vec![("team", text("Blue"))])),
                            ("[U:1:200]", obj(vec![("team", text("Blue"))])),
                        ]),
                    ),
                    ("team", obj(vec![("Red", obj(vec![("kills", num(5))])), ("Blue", obj(vec![("kills", num(9))]))])),
                    (
                        "events",
                        Json::Array(vec![
                            obj(vec![("type", text("medic_death")), ("time", num(450)), ("team", text("Blue")), ("steamid", text("[U:1:300]")), ("killer", text("junk"))]),
                            obj(vec![("time", num(460))]),
                            obj(vec![("type", text("charge")), ("time", num(480)), ("medigun", text("kritzkrieg"))]),
                        ]),
                    ),
                ]),
            ]),
        ),
    ])
}

#[test]
fn players_come_out_blue_first_then_by_account() {
    let log = normalize(77, &sample()).unwrap();
    let order: Vec<(Team, u32)> = log.players.iter().map(|p| (p.team, p.id.account_id())).collect();
    assert_eq!(order, vec![(Team::Blue, 150), (Team::Blue, 200), (Team::Red, 100), (Team::Red, 300)]);
}

#[test]
fn unparseable_keys_and_teamless_players_are_left_out() {
    let log = normalize(77, &sample()).unwrap();
    assert_eq!(log.players.len(), 4);
    assert!(log.players.iter().all(|p| p.id.account_id() != 400));
}

#[test]
fn log_fields_are_read_leniently() {
    let log = normalize(77, &sample()).unwrap();
    assert_eq!(log.log_id, 77);
    assert_eq!(log.title.as_deref(), Some("serveme: RED vs BLU"));
    assert_eq!(log.map, None, "an empty map name is no map");
    assert_eq!(log.played_at, Some(1_700_000_000));
    assert_eq!(log.duration_s, 1800);
    assert_eq!((log.red_score, log.blue_score), (3, 2));
    assert!(log.flags.real_damage);
    assert!(!log.flags.hs, "only a true boolean sets a flag");
    assert!(!log.flags.cp);
}

#[test]
fn player_numbers_accept_strings_and_booleans() {
    let log = normalize(77, &sample()).unwrap();
    let p = log.players.iter().find(|p| p.id.account_id() == 300).unwrap();
    assert_eq!(p.name.as_deref(), Some("three"));
    assert_eq!(p.stats.kills, 10);
    assert_eq!(p.stats.deaths, 3);
    assert_eq!(p.stats.dmg, 1);
    assert_eq!(p.stats.heal, 0);
    let q = log.players.iter().find(|p| p.id.account_id() == 200).unwrap();
    assert_eq!(q.name.as_deref(), Some(""), "a name is kept as written");
}

#[test]
fn a_class_played_twice_is_one_line_and_undefined_is_dropped() {
    let log = normalize(77, &sample()).unwrap();
    let p = &log.players[0];
    assert_eq!(p.classes.len(), 2);
    assert_eq!(p.classes[0].class, TfClass::Scout);
    assert_eq!((p.classes[0].time_s, p.classes[0].kills), (120, 3));
    assert_eq!(p.classes[1].class, TfClass::Medic);
    assert_eq!(p.classes[1].time_s, 30);
}

#[test]
fn vs_lines_merge_the_three_tables_in_class_order() {
    let log = normalize(77, &sample()).unwrap();
    let p = log.players.iter().find(|p| p.id.account_id() == 300).unwrap();
    let vs: Vec<(TfClass, i64, i64, i64)> =
        p.vs.iter().map(|v| (v.other_class, v.kills, v.deaths, v.assists)).collect();
    assert_eq!(
        vs,
        vec![(TfClass::Scout, 1, 0, 0), (TfClass::Soldier, 6, 0, 0), (TfClass::Medic, 0, 2, 0)]
    );
    let q = log.players.iter().find(|p| p.id.account_id() == 100).unwrap();
    assert!(q.vs.is_empty());
}

#[test]
fn rounds_are_timed_from_their_own_start() {
    let log = normalize(77, &sample()).unwrap();
    assert_eq!(log.rounds.len(), 2);
    let r = &log.rounds[0];
    assert_eq!(r.round_num, 1);
    assert_eq!(r.start_time, Some(1_700_000_100));
    assert_eq!(r.length_s, Some(300));
    assert!(!r.colours_swapped, "no per-round teams means no swap");
    assert_eq!(r.winner, Some(Team::Red));
    assert_eq!((r.red.kills, r.blue.kills), (Some(12), Some(8)));
    // The win at 400 s after 300 s of play puts the start at 100 s.
    let at: Vec<i64> = r.events.iter().map(|e| e.at_s).collect();
    assert_eq!(at, vec![50, 300]);
    assert_eq!(r.events[0].kind, "pointcap");
    assert_eq!(r.events[0].point, Some(1));
}

#[test]
fn a_swapped_round_is_given_in_the_stable_colours() {
    let log = normalize(77, &sample()).unwrap();
    let r = &log.rounds[1];
    assert_eq!(r.round_num, 2);
    // Two of the three players wear the other colour: the round is swapped.
    assert!(r.colours_swapped);
    assert_eq!(r.winner, Some(Team::Red));
    assert_eq!((r.red.kills, r.blue.kills), (Some(9), Some(5)));
    // No round_win: the start is 400 s after the first round's wall clock.
    assert_eq!(r.events.len(), 2, "an event without a type is dropped");
    let e = &r.events[0];
    assert_eq!(e.at_s, 50);
    assert_eq!(e.team, Some(Team::Red));
    assert_eq!(e.player.map(|p| p.account_id()), Some(300));
    assert_eq!(e.killer, None);
    assert_eq!(r.events[1].at_s, 80);
    assert_eq!(r.events[1].medigun.as_deref(), Some("kritzkrieg"));
}

#[test]
fn a_log_without_players_is_refused() {
    let raw = obj(vec![("players", Json::Array(vec![]))]);
    assert_eq!(normalize(-5, &raw).unwrap_err(), "log -5: no players object");
    assert_eq!(normalize(12, &Json::Null).unwrap_err(), "log 12: no players object");
}

#[test]
fn totals_that_leave_64_bits_are_refused() {
    let big = obj(vec![
        ("team", text("Red")),
        (
            "class_stats",
            Json::Array(vec![
                obj(vec![("type", text("spy")), ("total_time", num(i64::MAX))]),
                obj(vec![("type", text("spy")), ("total_time", num(1))]),
            ]),
        ),
    ]);
    let raw = obj(vec![("players", obj(vec![("[U:1:5]", big)]))]);
    assert_eq!(normalize(9, &raw).unwrap_err(), "log 9: a player's totals do not fit in 64 bits");
}

#[test]
fn an_empty_players_object_is_an_empty_log() {
    let raw = obj(vec![("players", obj(vec![]))]);
    let log = normalize(1, &raw).unwrap();
    assert!(log.players.is_empty());
    assert!(log.rounds.is_empty());
    assert_eq!(log.duration_s, 0);
    assert_eq!(log.title, None);
}

#[test]
fn a_log_is_read_from_its_json_text() {
    let text = r#"{"length": 1800.4, "players": {"[U:1:5]": {"team": "Red", "kills": 2.5, "deaths": -2.5, "dmg": 1e3, "heal": 99999999999999999999}}}"#;
    let log = normalize_text(5, text).unwrap();
    assert_eq!(log.log_id, 5);
    assert_eq!(log.duration_s, 1800);
    let p = &log.players[0];
    assert_eq!(p.stats.kills, 3, "a fraction rounds half away from zero");
    assert_eq!(p.stats.deaths, -3);
    assert_eq!(p.stats.dmg, 1000);
    assert_eq!(p.stats.heal, i64::MAX, "a number past i64 is held to i64");
}

#[test]
fn text_that_is_not_json_is_refused() {
    assert_eq!(normalize_text(5, "{\"players\": ").unwrap_err(), "log 5 is not valid JSON");
    assert_eq!(normalize_text(6, "[]").unwrap_err(), "log 6: no players object");
}

#[test]
fn round_starts_are_the_whole_start_times() {
    let text = r#"{"rounds": [{"start_time": 100}, {"start_time": 1.5}, {}, {"start_time": -7}]}"#;
    assert_eq!(round_starts(text), vec![100, -7]);
    assert_eq!(round_starts("{}"), Vec::<i64>::new());
    assert_eq!(round_starts("not json"), Vec::<i64>::new());
}

#[test]
fn ids_are_read_from_a_json_list() {
    assert_eq!(parse_ids(Some("[3, 1, 2]")), vec![3, 1, 2]);
    assert_eq!(parse_ids(Some("[1, 2.5]")), Vec::<i64>::new());
    assert_eq!(parse_ids(Some("{}")), Vec::<i64>::new());
    assert_eq!(parse_ids(Some("")), Vec::<i64>::new());
    assert_eq!(parse_ids(None), Vec::<i64>::new());
}
