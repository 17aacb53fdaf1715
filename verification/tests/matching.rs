use hl::dedupe::{supersessions, IndexEntry};
use hl::etf2l::{match_by_time, next_page, to_fetch, MAX_RESULT_PAGES, SETTLE_S};
use hl::link::{map_match, place_log, LogClock};
use hl::maps::map_base;
use hl::query::{match_result, order_by, scope, sort_expr, MatchFilter};
use hl::scan::{filename_time, playdemo_arg};
use hl::sync::{parse_log_id, FetchAction, FetchPass, Fetched, GIVE_UP_AFTER};

fn e(log_id: i64, duration_s: i64, duplicate_of: &[i64]) -> IndexEntry {
    IndexEntry { log_id, duration_s, duplicate_of: duplicate_of.to_vec() }
}

/// The real group from the account: one combined log, three parts.
#[test]
fn combined_log_supersedes_its_parts() {
    let s = supersessions(&[
        e(4109131, 2816, &[4109086, 4109098, 4109125]),
        e(4109086, 778, &[]),
        e(4109098, 916, &[]),
        e(4109125, 1122, &[]),
    ]);
    assert_eq!(s.len(), 3);
    assert!(s.values().all(|&keep| keep == 4109131));
    assert!(!s.contains_key(&4109131));
}

#[test]
fn overlapping_combines_keep_only_the_fullest() {
    // Rounds 1-2 combined by one person, rounds 1-3 by another.
    let s = supersessions(&[
        e(10, 1600, &[1, 2]),
        e(11, 2400, &[1, 2, 3]),
        e(1, 800, &[]),
        e(2, 800, &[]),
        e(3, 800, &[]),
    ]);
    assert!(!s.contains_key(&11));
    assert_eq!(s[&10], 11);
    assert_eq!(s[&1], 11);
    assert_eq!(s[&3], 11);
}

#[test]
fn a_missing_part_still_links_the_group() {
    // Part 99 was never indexed, but both combines reference it.
    let s = supersessions(&[e(20, 1000, &[99]), e(21, 2000, &[99, 98])]);
    assert_eq!(s[&20], 21);
}

#[test]
fn standalone_logs_are_untouched() {
    let s = supersessions(&[e(1, 1800, &[]), e(2, 1800, &[])]);
    assert!(s.is_empty());
}

#[test]
fn equal_length_goes_to_more_parts_then_the_newer_upload() {
    // Same length: the one built from more parts wins.
    let s = supersessions(&[e(30, 1000, &[5]), e(31, 1000, &[5, 6])]);
    assert_eq!(s[&30], 31);
    assert_eq!(s.len(), 1);
    // Same length and parts: the higher id, uploaded later, wins.
    let s = supersessions(&[e(41, 1000, &[7]), e(40, 1000, &[7])]);
    assert_eq!(s[&40], 41);
    assert!(!s.contains_key(&41));
}

#[test]
fn a_log_belongs_to_the_official_it_started_just_after() {
    let hour = 3600;
    let matches = [(1, 20 * hour), (2, 24 * hour)];
    let logs = [
        (100, 20 * hour + 1800),
        (101, 20 * hour + 2 * hour),
        (102, 20 * hour - 600),
        (103, 20 * hour + 3 * hour + 1800),
        (104, 24 * hour + 60),
    ];
    let got = match_by_time(&logs, &matches);
    assert_eq!(got, vec![(100, 1), (101, 1), (104, 2)]);
}

#[test]
fn no_officials_means_nothing_is_marked() {
    assert!(match_by_time(&[(1, 100)], &[]).is_empty());
}

#[test]
fn the_window_is_three_hours_from_the_scheduled_time() {
    let matches = [(7, 1000)];
    let logs = [(1, 1000), (2, 1000 + 3 * 3600), (3, 1000 + 3 * 3600 + 1), (4, 999)];
    assert_eq!(match_by_time(&logs, &matches), vec![(1, 7), (2, 7)]);
}

#[test]
fn a_log_id_is_read_out_of_whatever_was_pasted() {
    assert_eq!(parse_log_id("4042136"), Some(4042136));
    assert_eq!(parse_log_id("  4042136 "), Some(4042136));
    assert_eq!(parse_log_id("https://logs.tf/4042136"), Some(4042136));
    assert_eq!(parse_log_id("https://logs.tf/4042136/"), Some(4042136));
    assert_eq!(parse_log_id("logs.tf/4042136"), Some(4042136));
    assert_eq!(parse_log_id("https://logs.tf/4042136#76561198099396919"), Some(4042136));
}

#[test]
fn anything_else_is_refused_rather_than_guessed_at() {
    assert_eq!(parse_log_id(""), None);
    assert_eq!(parse_log_id("the vigil game"), None);
    assert_eq!(parse_log_id("https://logs.tf/"), None);
    assert_eq!(parse_log_id("0"), None, "there is no log zero");
    assert_eq!(parse_log_id("https://demos.tf/1507898"), Some(1507898), "close enough: it is a number");
}

#[test]
fn a_log_id_too_large_for_an_i64_is_refused() {
    assert_eq!(parse_log_id("9223372036854775807"), Some(i64::MAX));
    assert_eq!(parse_log_id("9223372036854775808"), None);
}

fn log(id: i64, map: Option<&str>, raw_start: i64, raw_end: i64, anchor: i64) -> LogClock {
    LogClock { log_id: id, map: map.map(str::to_string), raw_start, raw_end, anchor_utc: anchor }
}

/// The real case: two swiftwater logs recorded in one 62-minute demo, on a
/// server two hours behind UTC.
#[test]
fn a_cest_server_is_placed_two_hours_later() {
    let l = log(4122234, Some("pl_swiftwater_final1"), 1_789_666_289, 1_789_668_112, 1_789_675_330);
    assert_eq!(l.offset_s(), 7200);
    assert_eq!(l.upload_delay_s(), 18);
}

#[test]
fn the_offset_is_floored_so_the_delay_is_never_negative() {
    let l = log(1, None, 0, 10_000, 10_000 - 10);
    assert_eq!(l.offset_s(), -3600);
    assert_eq!(l.upload_delay_s(), 3590);
    assert_eq!(l.start_utc(), -3600);
    assert_eq!(l.end_utc(), 10_000 - 3600);
}

#[test]
fn multi_map_labels_match_by_base_name() {
    assert_eq!(map_match("pl_upward_f12", Some("upward + steel")), Some("label"));
    assert_eq!(map_match("cp_steel_f12", Some("upward + steel")), Some("label"));
    assert_eq!(map_match("koth_product_final", Some("upward + steel")), None);
    assert_eq!(map_match("pl_vigil_rc10", None), Some("nomap"));
    assert_eq!(map_match("PL_Upward_F12", Some("pl_upward_f12")), Some("exact"));
}

#[test]
fn map_base_strips_prefix_and_version() {
    assert_eq!(map_base("pl_upward_f12"), "upward");
    assert_eq!(map_base("koth_product_final"), "product");
    assert_eq!(map_base("pl_vigil_rc10"), "vigil");
    assert_eq!(map_base("koth_proot_b5b"), "proot");
    assert_eq!(map_base("pl_swiftwater_final1"), "swiftwater");
    assert_eq!(map_base("cp_process"), "process");
}

#[test]
fn reads_the_demo_support_timestamp() {
    assert_eq!(filename_time("flashwav2026-09-17_21-00-24.dem").as_deref(), Some("2026-09-17 21:00:24"));
    assert_eq!(filename_time("peterreview.dem"), None);
}

fn filter(sort: Option<&str>, ascending: bool) -> MatchFilter {
    MatchFilter {
        format: None,
        kind: None,
        from: None,
        to: None,
        limit: 50,
        offset: 0,
        sort: sort.map(str::to_string),
        ascending,
        model_version: "v5".to_string(),
        class: None,
        map: None,
    }
}

#[test]
fn every_sort_is_a_known_column_and_anything_else_falls_back_to_the_date() {
    assert!(order_by(&filter(Some("dpm"), false)).contains("p.dmg * 60.0 / p.time_s"));
    assert!(order_by(&filter(Some("rating"), true)).contains("r.score) ASC"));
    let sneaky = order_by(&filter(Some("1; DROP TABLE match"), false));
    assert!(!sneaky.contains("DROP"), "{sneaky}");
    assert_eq!(sneaky, order_by(&filter(None, false)));
}

#[test]
fn matches_the_owner_did_not_play_sort_last_either_way() {
    for ascending in [false, true] {
        assert!(order_by(&filter(Some("kills"), ascending)).starts_with("ORDER BY (p.kills) IS NULL,"));
    }
}

#[test]
fn the_default_order_is_newest_first() {
    assert_eq!(
        order_by(&filter(None, false)),
        "ORDER BY (m.played_at) IS NULL, (m.played_at) DESC, m.played_at DESC, m.log_id DESC"
    );
    assert_eq!(sort_expr("kd").map(|s| s.contains("p.kills * 1.0 / p.deaths")), Some(true));
    assert_eq!(sort_expr("Kills"), None);
}

#[test]
fn the_scope_filters_name_the_table() {
    let s = scope("a");
    assert!(s.starts_with("WHERE (?1 IS NULL OR a.log_id = ?1)"));
    assert!(s.ends_with("WHERE m.log_id = a.log_id AND m.played_at <= ?5))"));
    assert_eq!(s.matches("a.log_id").count(), 5);
}

#[test]
fn an_outage_ends_the_pass_without_spending_attempts() {
    let mut p = FetchPass::default();
    assert_eq!(p.step(Fetched::Stored), FetchAction::Rate);
    assert_eq!(p.step(Fetched::Unreachable), FetchAction::Next);
    assert_eq!(p.step(Fetched::Failed), FetchAction::RecordFailure);
    assert_eq!(p.unreachable_run, 0, "a bad answer means the server is there");
    assert_eq!(p.step(Fetched::Unreachable), FetchAction::Next);
    assert_eq!(p.step(Fetched::Unreachable), FetchAction::Next);
    assert_eq!(p.step(Fetched::Unreachable), FetchAction::GiveUp);
    assert_eq!(GIVE_UP_AFTER, 3);
    assert_eq!((p.fetched, p.failed), (1, 1));
}

#[test]
fn a_log_is_anchored_on_its_last_part_else_its_own_upload() {
    let (c, kind) = place_log(7, Some("PL_Upward_F12"), 100, 1900, Some(5_000), &[4_000, 9_000, 6_000]).unwrap();
    assert_eq!(kind, "parts");
    assert_eq!(c.anchor_utc, 9_000, "the latest part upload");
    assert_eq!(c.map.as_deref(), Some("pl_upward_f12"));
    assert_eq!((c.log_id, c.raw_start, c.raw_end), (7, 100, 1900));
    let (c, kind) = place_log(8, None, 100, 1900, Some(5_000), &[]).unwrap();
    assert_eq!((kind, c.anchor_utc, c.map), ("upload", 5_000, None));
    assert!(place_log(9, None, 100, 1900, None, &[]).is_none(), "nothing to anchor on");
}

#[test]
fn settled_matches_are_not_fetched_again() {
    let day = 24 * 3600;
    let stored = [
        // Fetched a month after it was played: settled.
        (10, 40 * day, Some(10 * day)),
        // Fetched the day after: results may still change.
        (11, 11 * day, Some(10 * day)),
        // Stored without a time: cannot tell, so fetched again.
        (12, 50 * day, None),
    ];
    assert_eq!(to_fetch(&[9, 10, 11, 12, 13], &stored), vec![9, 11, 12, 13]);
    assert_eq!(SETTLE_S, 14 * day);
}

#[test]
fn results_pages_stop_at_the_last_or_at_the_guard() {
    assert_eq!(next_page(1, Some(3)), Some(2));
    assert_eq!(next_page(3, Some(3)), None);
    assert_eq!(next_page(1, None), None, "a page that names no last page is the last");
    assert_eq!(next_page(MAX_RESULT_PAGES, Some(500)), None);
}

#[test]
fn a_result_is_read_from_the_owners_side() {
    assert_eq!(match_result("Red", Some(3), Some(2)), "W");
    assert_eq!(match_result("Blue", Some(3), Some(2)), "L");
    assert_eq!(match_result("Blue", Some(2), Some(2)), "T");
    assert_eq!(match_result("Red", None, Some(2)), "T");
}

#[test]
fn playdemo_arg_is_relative_to_tf_without_extension() {
    let tf = "D:/tf";
    assert_eq!(playdemo_arg(tf, "D:/tf/demos/abc.dem"), "demos/abc");
    assert_eq!(playdemo_arg(tf, "D:/tf/abc.dem"), "abc");
}

#[test]
fn playdemo_names_outside_tf_and_odd_names() {
    let tf = "/home/me/tf/";
    assert_eq!(playdemo_arg(tf, "/home/me/tf/demos/a.b.dem"), "demos/a.b");
    assert_eq!(playdemo_arg(tf, "/elsewhere/x.dem"), "elsewhere/x");
    assert_eq!(playdemo_arg(tf, "/home/me/tf/.hidden"), ".hidden");
    assert_eq!(playdemo_arg(tf, "/home/me/tf"), "");
}
