use hl::mapres::{
    candidates, is_map_name, most_played, source_counts, multi_map, named_bases, resolve, round_points, segment_rows, segments, GeoAnswer, LogIn,
    PartIn, RoundIn, RoundOut, SegmentRow, Source,
};

/// Two toy maps: "left" lives at x < 0, "right" at x > 0. What the map
/// outlines answer for a round's kills: the side they fell on, named as a
/// `koth_` map, or nothing for a round without kills.
fn geo_of(round: &RoundIn) -> Option<GeoAnswer> {
    if round.points.is_empty() {
        return None;
    }
    let left = round.points.iter().all(|p| p.0 < 0);
    let base = if left { "left" } else { "right" };
    Some(GeoAnswer { base: base.to_string(), named: names(base), sure: true })
}

fn geo(log: &LogIn) -> Vec<Option<GeoAnswer>> {
    log.rounds.iter().map(geo_of).collect()
}

fn pts(x0: i32) -> Vec<(i32, i32)> {
    (0..20).map(|i| (x0 + (i % 5) * 60, (i / 5) * 60)).collect()
}

fn round(n: i64, start: i64, points: Vec<(i32, i32)>) -> RoundIn {
    RoundIn { round_num: n, start, length: 300, points }
}

fn names(b: &str) -> Option<String> {
    Some(format!("koth_{b}"))
}

fn known() -> Vec<String> {
    ["upward", "cascade", "proot", "proplant", "product", "product_rcx", "vigil"].iter().map(|s| s.to_string()).collect()
}

#[test]
fn recognises_real_map_names() {
    assert!(is_map_name("pl_upward_f12"));
    assert!(is_map_name("koth_product_final"));
    assert!(is_map_name("tow_tetsudo_b10a"), "any game-mode prefix");
    assert!(!is_map_name("steel"));
    assert!(!is_map_name("proot-product"));
    assert!(!is_map_name("proot + proplant"));
    assert!(!is_map_name("русские не победили :("));
    assert!(!is_map_name("vigilx2"));
}

#[test]
fn reads_maps_out_of_free_text() {
    let known = known();
    assert_eq!(named_bases("upw/casc", &known), ["upward", "cascade"]);
    assert_eq!(named_bases("vigilx2", &known), ["vigil"]);
    assert_eq!(named_bases("proot + proplant", &known), ["proot", "proplant"]);
    assert!(named_bases("pro", &known).is_empty(), "ambiguous: proot, proplant, product");
    assert_eq!(named_bases("product", &known), ["product"], "exact beats product_rcx");
    assert!(named_bases("how did we win", &known).is_empty());
}

#[test]
fn a_real_map_name_covers_every_round() {
    let log = LogIn { map_field: Some("pl_upward_f12".into()), rounds: vec![round(1, 0, vec![])], ..Default::default() };
    let out = resolve(&log, &geo(&log));
    assert_eq!(out[0].map.as_deref(), Some("pl_upward_f12"));
    assert_eq!(out[0].source, Some(Source::Log));
}

#[test]
fn parts_match_rounds_to_the_second() {
    let log = LogIn {
        map_field: Some("both maps".into()),
        rounds: vec![round(1, 1000, pts(900)), round(2, 5000, pts(-1900))],
        parts: vec![
            PartIn { map: "koth_right".into(), round_starts: vec![1000], uploaded: None, duration: None },
            PartIn { map: "koth_left".into(), round_starts: vec![5000], uploaded: None, duration: None },
        ],
        ..Default::default()
    };
    let out = resolve(&log, &geo(&log));
    assert_eq!(out.iter().map(|o| o.map.as_deref().unwrap()).collect::<Vec<_>>(), ["koth_right", "koth_left"]);
    assert!(out.iter().all(|o| o.source == Some(Source::Part)));
}

#[test]
fn geometry_answers_when_nothing_else_does() {
    let log = LogIn {
        map_field: Some("how did we win".into()),
        rounds: vec![round(1, 0, pts(-1900)), round(2, 400, pts(900))],
        ..Default::default()
    };
    let out = resolve(&log, &geo(&log));
    assert_eq!(out[0].map.as_deref(), Some("koth_left"));
    assert_eq!(out[1].map.as_deref(), Some("koth_right"));
    assert_eq!(out[0].source, Some(Source::Geometry));
}

#[test]
fn a_round_without_kills_takes_its_neighbours_map() {
    let log = LogIn {
        map_field: None,
        rounds: vec![round(1, 0, pts(-1900)), round(2, 400, vec![]), round(3, 800, pts(-1900))],
        ..Default::default()
    };
    let out = resolve(&log, &geo(&log));
    assert_eq!(out[1].map.as_deref(), Some("koth_left"));
    assert_eq!(out[1].source, Some(Source::Neighbour));
}

#[test]
fn segments_group_consecutive_rounds() {
    let r = |n, m: &str| RoundOut { round_num: n, map: Some(m.into()), source: Some(Source::Part) };
    let s = segments(&[r(1, "a"), r(2, "a"), r(3, "b"), r(4, "a")]);
    assert_eq!(s.len(), 3, "a map played again later is its own segment");
    assert_eq!(s[0].1, vec![1, 2]);
}

#[test]
fn map_lines_in_the_raw_log_name_their_rounds() {
    let log = LogIn {
        map_field: Some("upward + vigil".into()),
        rounds: vec![round(1, 100, pts(900)), round(2, 2000, pts(900))],
        meta_maps: vec![(50, "pl_upward_f12".into()), (1900, "pl_vigil_rc10".into())],
        ..Default::default()
    };
    let out = resolve(&log, &geo(&log));
    assert_eq!(out[0].map.as_deref(), Some("pl_upward_f12"));
    assert_eq!(out[1].map.as_deref(), Some("pl_vigil_rc10"));
    assert!(out.iter().all(|o| o.source == Some(Source::Meta)));
    assert_eq!(Source::Meta.as_str(), "meta");
}

#[test]
fn rounds_come_out_in_order_of_start() {
    let log = LogIn {
        map_field: Some("pl_upward_f12".into()),
        rounds: vec![round(2, 500, vec![]), round(1, 100, vec![])],
        ..Default::default()
    };
    let out = resolve(&log, &geo(&log));
    assert_eq!(out.iter().map(|o| o.round_num).collect::<Vec<_>>(), [1, 2]);
}

#[test]
fn candidates_come_from_the_map_field_and_title() {
    let log = LogIn { map_field: Some("upw/casc".into()), ..Default::default() };
    let c = candidates(&log, &known());
    assert!(c.contains(&"upward".to_string()));
    assert!(c.contains(&"cascade".to_string()));
}

#[test]
fn a_base_is_named_by_its_version_played_most() {
    let ms: Vec<String> = ["pl_vigil_rc8", "PL_Vigil_RC10", "koth_product_final", "pl_vigil_rc10", "not a map"].iter().map(|s| s.to_string()).collect();
    assert_eq!(most_played(&ms, "vigil").as_deref(), Some("pl_vigil_rc10"));
    assert_eq!(most_played(&ms, "product").as_deref(), Some("koth_product_final"));
    assert_eq!(most_played(&ms, "upward"), None);
    let tie: Vec<String> = vec!["pl_vigil_rc8".to_string(), "pl_vigil_rc10".to_string()];
    assert_eq!(most_played(&tie, "vigil").as_deref(), Some("pl_vigil_rc8"), "a tie goes to the first named");
}

#[test]
fn segment_rows_count_each_sides_wins() {
    let segs = vec![(Some("koth_product".to_string()), vec![1, 2, 3]), (None, vec![])];
    let winners = vec![(1, Some("Red".to_string())), (2, Some("Blue".to_string())), (3, None), (2, Some("Red".to_string()))];
    let rows = segment_rows(&segs, &winners);
    let row = |map: Option<&str>, first: i64, last: i64, rounds: i64, red: i64, blue: i64| SegmentRow { map: map.map(str::to_string), first_round: first, last_round: last, rounds, red_wins: red, blue_wins: blue };
    assert_eq!(rows, vec![row(Some("koth_product"), 1, 3, 3, 2, 0), row(None, 0, 0, 0, 0, 0)]);
    assert!(!multi_map(&rows));
    let two = vec![row(Some("koth_product_rc9"), 1, 1, 1, 0, 0), row(Some("koth_product_rc10"), 2, 2, 1, 0, 0), row(Some("pl_upward"), 3, 3, 1, 0, 0)];
    assert!(!multi_map(&two[..2]), "two versions of one map are one map");
    assert!(multi_map(&two));
}

#[test]
fn a_rounds_points_are_its_kills_positions() {
    let points = vec![(99, 1, 2, 3, 4), (100, 5, 6, 7, 8), (160, 9, 10, 11, 12), (161, 0, 0, 0, 0)];
    assert_eq!(round_points(&points, 100, 60), vec![(5, 6), (7, 8), (9, 10), (11, 12)]);
    assert_eq!(round_points(&points, i64::MAX, 10), vec![]);
}

#[test]
fn sources_are_counted_most_used_first() {
    let srcs = vec![Some(Source::Geometry), None, Some(Source::Log), Some(Source::Geometry), None, Some(Source::Meta), Some(Source::Geometry)];
    let counts = source_counts(&srcs);
    let want: Vec<(String, usize)> = vec![("geometry".to_string(), 3), ("unresolved".to_string(), 2), ("log".to_string(), 1), ("meta".to_string(), 1)];
    assert_eq!(counts, want);
    assert!(source_counts(&[]).is_empty());
}
