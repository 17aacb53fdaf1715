use hl::etf2l::{match_row, CompetitionIn, DivisionIn, MatchIn, PlayerIn};
use serde_json::Value;

const S36: &str = r#"{"match":{"clan1":{"country":"France","drop":false,"id":37805,"name":"DD14"},
    "clan2":{"id":37921,"name":"ЭТО МОЁ БОЛОТО"},
    "competition":{"category":"Highlander Season","id":1050,"name":"Highlander Season 36 (Autumn 2026): High","type":"Highlander"},
    "defaultwin":false,"division":{"id":3085,"name":"High","skill_contrib":24,"tier":1},"id":92883,
    "maps":["pl_upward_f12","pl_upward_f12"],"r1":4,"r2":2,"round":"Round 1","time":1787512500,"week":1,
    "players":[
      {"id":58470,"name":"Kaylus","team_id":37805,"steam":{"id":"STEAM_1:0:45409556","id3":"[U:1:90819112]","id64":"76561198051084840"}},
      {"id":97913,"name":"Flashy","team_id":null,"steam":{"id64":"76561198099396919"}},
      {"id":1,"name":"no steam","team_id":37921,"steam":null}],
    "demos":[],"map_results":[]}}"#;

fn text(v: &Value, key: &str) -> Option<String> {
    v.get(key).and_then(Value::as_str).map(str::to_string)
}

fn num(v: &Value, key: &str) -> Option<i64> {
    v.get(key).and_then(Value::as_i64)
}

fn clan(v: &Value) -> Option<(i64, String)> {
    Some((num(v, "id")?, text(v, "name")?))
}

/// The match response read field by field, as the app's typed parse does.
fn match_in(json: &str) -> MatchIn {
    let root: Value = serde_json::from_str(json).unwrap();
    let m = &root["match"];
    MatchIn {
        id: num(m, "id").unwrap(),
        clan1: m.get("clan1").and_then(clan),
        clan2: m.get("clan2").and_then(clan),
        competition: m.get("competition").map(|c| CompetitionIn {
            id: num(c, "id"),
            name: text(c, "name"),
            category: text(c, "category"),
            kind: text(c, "type"),
        }),
        division: m.get("division").map(|d| DivisionIn { name: text(d, "name"), tier: num(d, "tier") }),
        default_win: m.get("defaultwin").and_then(Value::as_bool).unwrap_or(false),
        maps: m["maps"].as_array().unwrap().iter().map(|x| x.as_str().unwrap().to_string()).collect(),
        r1: num(m, "r1"),
        r2: num(m, "r2"),
        round: text(m, "round"),
        time: num(m, "time"),
        week: num(m, "week"),
        players: m["players"]
            .as_array()
            .unwrap()
            .iter()
            .map(|p| PlayerIn {
                name: text(p, "name"),
                team_id: num(p, "team_id"),
                id64: p.get("steam").and_then(|s| text(s, "id64")),
            })
            .collect(),
    }
}

#[test]
fn parses_a_real_match() {
    let m = match_row(match_in(S36));
    assert_eq!(m.match_id, 92883);
    assert_eq!(m.comp_type.as_deref(), Some("Highlander"));
    assert_eq!(m.division.as_deref(), Some("High"));
    assert_eq!(m.tier, Some(1));
    assert_eq!(m.clan2.as_ref().unwrap().1, "ЭТО МОЁ БОЛОТО");
    assert_eq!((m.r1, m.r2), (Some(4), Some(2)));
    // The merc keeps no team; the player without a SteamID is dropped.
    assert_eq!(m.roster.len(), 2);
    assert!(m.roster.contains(&(139131191, None, Some("Flashy".into()))));
    assert!(m.roster.contains(&(90819112, Some(37805), Some("Kaylus".into()))));
}

#[test]
fn a_roster_entry_with_an_unreadable_steam_id_is_dropped() {
    let mut m = match_in(S36);
    m.players.push(PlayerIn { name: Some("bot".into()), team_id: Some(1), id64: Some("not an id".into()) });
    m.competition = None;
    let row = match_row(m);
    assert_eq!(row.roster.len(), 2);
    assert_eq!((row.competition_id, row.competition), (None, None));
    assert_eq!(row.maps, vec!["pl_upward_f12".to_string(), "pl_upward_f12".to_string()]);
    assert_eq!(row.roster[0], (90819112, Some(37805), Some("Kaylus".into())), "in the roster's order");
}
