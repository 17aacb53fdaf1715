use hl::backup::{due, file_name, newest_first, stamp, to_prune, Backup, KEEP};
use hl::cli::{days_from_civil, flag_text, fmt_date, kind_flag, parse_day, truncate};
use hl::demostf::{match_demos, DemosTfMeta, Unlinked};
use hl::kills::{map_at, RoundWindow};
use hl::lock::require_free;
use hl::normalize::Json;
use hl::owner::{avatar_stale, data_url, from_etf2l, owner_of_profile, xml_value};
use hl::seasons::{group, season_of, SeasonOfficial, DAY};
use hl::situation::{record, tally, KillState, Mode, Tally};
use hl::steamid::SteamId;

#[test]
fn reads_steam_profile_xml() {
    let xml = "<profile><steamID64>1</steamID64><steamID><![CDATA[Flashy]]></steamID>\
               <avatarFull><![CDATA[https://avatars.steamstatic.com/x_full.jpg]]></avatarFull></profile>";
    assert_eq!(xml_value(xml, "steamID").as_deref(), Some("Flashy"));
    assert_eq!(xml_value(xml, "avatarFull").as_deref(), Some("https://avatars.steamstatic.com/x_full.jpg"));
    assert_eq!(xml_value(xml, "missing"), None);
}

#[test]
fn a_blank_xml_value_is_none_and_plain_text_is_trimmed() {
    assert_eq!(xml_value("<a>  x </a>", "a").as_deref(), Some("x"));
    assert_eq!(xml_value("<a><![CDATA[  ]]></a>", "a"), None);
    assert_eq!(xml_value("<a>open", "a"), None);
}

#[test]
fn data_urls_name_the_image_type() {
    assert!(data_url(b"\x89PNG\r\n").starts_with("data:image/png;base64,"));
    assert!(data_url(&[0xFF, 0xD8, 0xFF]).starts_with("data:image/jpeg;base64,"));
}

#[test]
fn data_urls_carry_the_bytes_in_base64() {
    assert_eq!(data_url(b"GIF8"), "data:image/gif;base64,R0lGOA==");
    assert_eq!(data_url(b"\x89PNG"), "data:image/png;base64,iVBORw==");
    assert_eq!(data_url(b""), "data:image/jpeg;base64,");
    assert_eq!(data_url(b"abc"), "data:image/jpeg;base64,YWJj");
}

#[test]
fn the_owners_etf2l_profile_gives_name_and_picture() {
    let me = SteamId::from_account_id(139_131_191);
    let other = r#"{"player":{"name":"Someone","steam":{"id64":"76561197960265729","avatar":"https://x/a.jpg"}}}"#;
    let mine = r#"{"player":{"name":"Flashy","steam":{"id64":"76561198099396919","avatar":"https://x/b.jpg"}}}"#;
    let rows = vec!["not json".to_string(), other.to_string(), mine.to_string()];
    assert_eq!(from_etf2l(&rows, me), Some((Some("Flashy".to_string()), Some("https://x/b.jpg".to_string()))));
    let plain = r#"{"name":"Flashy","steam":{"id64":"76561198099396919","avatar":"http://x/b.jpg"}}"#;
    assert_eq!(from_etf2l(&[plain.to_string()], me), Some((Some("Flashy".to_string()), None)));
    assert_eq!(from_etf2l(&[other.to_string()], me), None);
}

#[test]
fn a_picture_is_fetched_again_only_when_its_link_changes() {
    assert!(!avatar_stale(Some("https://a"), "https://a", true));
    assert!(avatar_stale(Some("https://a"), "https://b", true));
    assert!(avatar_stale(None, "https://a", true));
    assert!(avatar_stale(Some("https://a"), "https://a", false));
}

fn o(c: &str, d: &str, t: i64) -> SeasonOfficial {
    SeasonOfficial { competition: c.into(), division: Some(d.into()), time: t }
}

#[test]
fn competitions_group_into_seasons() {
    let day = DAY;
    let s = group(
        &[
            o("Highlander Season 33 (Spring 2025): Group Stage #1", "Low", 100 * day),
            o("Highlander Season 33 (Spring 2025): Low Playoffs", "Low", 150 * day),
            o("Highlander Season 34: Mid Playoffs", "Mid", 300 * day),
            o("Highlander Season 34 (Summer 2025)", "Mid", 280 * day),
            o("Highlander Winter 2024: Low", "Low", 40 * day),
            o("Highlander Winter 2024: Low Playoffs", "Low", 60 * day),
            o("Highlander AFA 2025: Top Tiers", "Top", 330 * day),
        ],
        1000 * day,
    );
    let names: Vec<&str> = s.iter().map(|x| x.name.as_str()).collect();
    assert_eq!(names, ["AFA 2025", "Season 34 (Summer 2025)", "Season 33 (Spring 2025)", "Winter 2024"]);
    let s33 = &s[2];
    assert_eq!((s33.key.as_str(), s33.officials), ("s33", 2));
    assert_eq!(s33.from, 94 * day, "six days of scrims before week one");
    assert_eq!(s33.to, 152 * day - 1, "through the day after the last official");
    assert_eq!(s[3].key, "winter-2024");
    assert!(!s[0].ongoing, "months ago");
}

#[test]
fn the_newest_season_runs_to_today_while_recent() {
    let s = group(&[o("Highlander Season 36 (Autumn 2026): High", "High", 100 * DAY)], 120 * DAY);
    assert!(s[0].ongoing);
    assert_eq!(s[0].to, 120 * DAY);
}

#[test]
fn a_season_is_named_from_its_competition() {
    let (k, n) = season_of("Highlander Season 33 (Spring 2025): Group Stage #1");
    assert_eq!((k.as_str(), n.as_str()), ("s33", "Season 33 (Spring 2025)"));
    let (k, n) = season_of("Highlander AFA 2025: Top Tiers");
    assert_eq!((k.as_str(), n.as_str()), ("afa-2025", "AFA 2025"));
    assert!(group(&[], 0).is_empty());
}

fn demo(id: i64, map: &str, time: i64) -> DemosTfMeta {
    DemosTfMeta { id, url: String::new(), name: String::new(), map: Some(map.into()), duration: None, time: Some(time) }
}

#[test]
fn a_demo_belongs_to_the_log_it_followed_on_the_same_map() {
    let hour = 3600;
    let logs: Vec<Unlinked> =
        vec![(1, 10 * hour, vec!["pl_upward_f12".to_string()]), (2, 12 * hour, vec!["pl_vigil_rc10".to_string()])];
    let demos = vec![
        demo(100, "pl_upward_f12", 10 * hour - 600),
        demo(200, "pl_vigil_rc7", 12 * hour + 2400),
        demo(300, "pl_upward_f12", 8 * hour - 1800),
        demo(400, "pl_upward_f12", 40 * hour),
    ];
    let mut got = match_demos(&logs, &demos);
    got.sort_unstable();
    assert_eq!(got, vec![(1, 100), (2, 200)]);
}

#[test]
fn the_nearer_log_takes_the_demo_and_no_log_takes_two() {
    let hour = 3600;
    let logs: Vec<Unlinked> = vec![(1, 10 * hour, vec!["pl_upward_f12".into()]), (2, 11 * hour, vec!["pl_upward_f12".into()])];
    let demos = vec![demo(100, "pl_upward_f12", 11 * hour - 300)];
    assert_eq!(match_demos(&logs, &demos), vec![(2, 100)], "the one it actually followed");
}

#[test]
fn a_combined_log_matches_on_any_of_its_maps() {
    let hour = 3600;
    let logs: Vec<Unlinked> = vec![(1, 10 * hour, vec!["pl_upward_f12".into(), "cp_steel_f12".into()])];
    let demos = vec![demo(100, "cp_steel_f12", 10 * hour - 480)];
    assert_eq!(match_demos(&logs, &demos), vec![(1, 100)]);
}

#[test]
fn a_map_that_does_not_match_is_never_claimed() {
    let logs: Vec<Unlinked> = vec![(1, 0, vec!["koth_product_final".into()])];
    assert!(match_demos(&logs, &[demo(100, "pl_upward_f12", 600)]).is_empty());
}

#[test]
fn two_demos_after_one_log_give_it_only_one() {
    let hour = 3600;
    let logs: Vec<Unlinked> = vec![(1, 10 * hour, vec!["pl_upward_f12".into()])];
    let demos = vec![demo(100, "pl_upward_f12", 10 * hour + 600), demo(101, "pl_upward_f12", 10 * hour + 60)];
    let got = match_demos(&logs, &demos);
    assert_eq!(got.len(), 1);
    assert_eq!(got[0].0, 1);
}

#[test]
fn a_kill_records_both_sides() {
    let mut t: Vec<(KillState, Tally)> = Vec::new();
    record(&mut t, KillState { diff: 2, adv: 1 }, true);
    let k = tally(&t, KillState { diff: 2, adv: 1 });
    let v = tally(&t, KillState { diff: -2, adv: -1 });
    assert_eq!((k.seen, k.won, k.kills, k.kills_won), (1, 1, 1, 1));
    assert_eq!((v.seen, v.won, v.kills), (1, 0, 0), "the victim's side saw the flipped state and lost");
}

#[test]
fn an_even_kill_is_both_sides_of_one_state() {
    let mut t: Vec<(KillState, Tally)> = Vec::new();
    record(&mut t, KillState { diff: 0, adv: 0 }, false);
    let e = tally(&t, KillState { diff: 0, adv: 0 });
    assert_eq!((e.seen, e.won, e.kills, e.kills_won), (2, 1, 1, 0));
    assert_eq!(tally(&t, KillState { diff: 1, adv: 0 }), Tally::default());
}

#[test]
fn maps_are_sorted_into_game_modes() {
    assert_eq!(Mode::of("koth_product_final"), Mode::Koth);
    assert_eq!(Mode::of("PL_Upward_F12"), Mode::Stopwatch);
    assert_eq!(Mode::of("cp_steel_f12"), Mode::Stopwatch);
    assert_eq!(Mode::of("cp_process_final"), Mode::Other);
    assert_eq!(Mode::Stopwatch.as_str(), "stopwatch");
}

#[test]
fn a_stamp_reads_as_a_date_and_sorts_that_way() {
    let a = stamp(1_789_675_741);
    let b = stamp(1_789_675_741 + 3600);
    assert_eq!(a.len(), 15, "{a}");
    assert!(a < b, "{a} then {b}");
}

#[test]
fn a_stamp_is_the_utc_date_and_time() {
    assert_eq!(stamp(0), "19700101-000000");
    assert_eq!(stamp(1_789_675_741), "20260917-200901");
    assert_eq!(stamp(-1), "19691231-235959");
    assert_eq!(file_name("hl", 0), "hl-19700101-000000.sqlite3");
}

#[test]
fn a_copy_is_due_hourly_unless_forced() {
    assert!(due(None, 1000, false));
    assert!(!due(Some(1000), 1000 + 3599, false));
    assert!(due(Some(1000), 1000 + 3600, false));
    assert!(due(Some(1000), 1001, true));
    assert!(!due(Some(i64::MAX), i64::MIN, false));
}

fn b(path: &str, made_at: i64) -> Backup {
    Backup { path: path.to_string(), bytes: 1, made_at }
}

#[test]
fn only_the_newest_copies_are_kept() {
    let found = vec![b("a", 1), b("c", 3), b("b", 2), b("e", 5), b("d", 4), b("f", 6)];
    let sorted = newest_first(found);
    let order: Vec<&str> = sorted.iter().map(|x| x.path.as_str()).collect();
    assert_eq!(order, ["f", "e", "d", "c", "b", "a"]);
    assert_eq!(to_prune(&sorted), ["b", "a"]);
    assert_eq!(KEEP, 5);
    assert!(to_prune(&sorted[..4]).is_empty());
}

#[test]
fn the_busy_database_is_refused_unless_forced() {
    assert!(require_free(false, false, "x").is_ok());
    assert!(require_free(true, true, "x").is_ok());
    let e = require_free(true, false, "/tmp/hl.sqlite3").unwrap_err();
    assert!(e.starts_with("the app has this database open (/tmp/hl.sqlite3).\n"));
}

#[test]
fn a_kill_takes_the_map_of_the_round_it_fell_in() {
    let w = vec![
        RoundWindow { start: 0, length: 100, map: Some("pl_upward_f12".into()) },
        RoundWindow { start: 200, length: 100, map: None },
    ];
    assert_eq!(map_at(&w, 50), Some("pl_upward_f12"));
    assert_eq!(map_at(&w, 100), Some("pl_upward_f12"));
    assert_eq!(map_at(&w, 150), None);
    assert_eq!(map_at(&w, 250), None);
}

#[test]
fn days_and_dates_follow_the_civil_calendar() {
    assert_eq!(days_from_civil(1970, 1, 1), 0);
    assert_eq!(days_from_civil(2000, 3, 1), 11_017);
    assert_eq!(days_from_civil(1969, 12, 31), -1);
    assert_eq!(parse_day("2026-09-17").unwrap(), 1_789_603_200);
    assert!(parse_day("2026/09/17").is_err());
    assert!(parse_day("2026-09").is_err());
    assert_eq!(fmt_date(1_789_675_741), "2026-09-17");
    assert_eq!(fmt_date(0), "1970-01-01");
}

#[test]
fn long_text_is_cut_with_an_ellipsis() {
    assert_eq!(truncate("short", 10), "short");
    assert_eq!(truncate("swiftwater", 5), "swif…");
    assert_eq!(truncate("ab", 2), "ab");
}

#[test]
fn flags_are_read_from_the_arguments() {
    assert_eq!(kind_flag(&["list", "--official"]), Some("official"));
    assert_eq!(kind_flag(&["list"]), None);
    assert_eq!(flag_text(&["x", "--map", "upward"], "--map"), Some(Some("upward".to_string())));
    assert_eq!(flag_text(&["x", "--map"], "--map"), Some(None));
    assert_eq!(flag_text(&["x"], "--map"), None);
}

#[test]
fn the_owner_is_read_from_the_nested_or_the_plain_fields() {
    let me: Vec<char> = "76561198099396919".chars().collect();
    let text = |s: &str| Json::Str(s.to_string());
    let obj = |fs: Vec<(&str, Json)>| Json::Object(fs.into_iter().map(|(k, v)| (k.to_string(), v)).collect());
    let profile = |id: &str, name: &str, avatar: &str| obj(vec![("name", text(name)), ("steam", obj(vec![("id64", text(id)), ("avatar", text(avatar))]))]);
    let mine = profile("76561198099396919", "Flashy", "http://x/a.jpg");
    let other = profile("1", "Other", "https://x/b.jpg");
    let nested = |p: Json, rest: Json| match rest {
        Json::Object(mut fs) => {
            fs.push(("player".to_string(), p));
            Json::Object(fs)
        }
        x => x,
    };
    assert_eq!(owner_of_profile(&nested(profile("76561198099396919", "Flashy", "http://x/a.jpg"), other), &me), Some((Some("Flashy".to_string()), None)));
    assert_eq!(owner_of_profile(&nested(profile("1", "Other", "https://x/b.jpg"), mine), &me), None, "a player member is read, not the document");
    assert_eq!(
        owner_of_profile(&profile("76561198099396919", "Flashy", "https://x/c.jpg"), &me),
        Some((Some("Flashy".to_string()), Some("https://x/c.jpg".to_string())))
    );
    assert_eq!(owner_of_profile(&obj(vec![("player", Json::Null)]), &me), None);
    assert_eq!(owner_of_profile(&Json::Array(vec![]), &me), None);
}
