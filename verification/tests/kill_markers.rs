use hl::kills::{enrich, StoredKill};
use hl::matchdata::{LogFlags, NormalizedLog, RoundLine, RoundTeam, Team};
use hl::steamid::SteamId;

fn round(round_num: i64, start: i64, length: i64) -> RoundLine {
    let side = RoundTeam { kills: None, dmg: None, ubers: None };
    RoundLine {
        round_num,
        start_time: Some(start),
        length_s: Some(length),
        winner: None,
        firstcap: None,
        red: side,
        blue: side,
        events: vec![],
        colours_swapped: false,
    }
}

fn log() -> NormalizedLog {
    NormalizedLog {
        log_id: 1,
        title: None,
        map: None,
        played_at: None,
        duration_s: 400,
        red_score: 0,
        blue_score: 0,
        flags: LogFlags::default(),
        players: vec![],
        rounds: vec![round(1, 100, 50), round(2, 200, 60), round(3, 300, 10)],
    }
}

fn kill(at_raw: i64, live: bool, killer: u32, victim: u32, classes: (Option<&str>, Option<&str>), custom: Option<&str>, weapon: &str) -> StoredKill {
    StoredKill {
        at_raw,
        live,
        killer,
        killer_class: classes.0.map(String::from),
        victim,
        victim_team: None,
        victim_class: classes.1.map(String::from),
        weapon: weapon.to_string(),
        custom: custom.map(String::from),
        assister: None,
    }
}

fn players() -> Vec<(u32, String)> {
    vec![(7, "me".to_string()), (8, "foe".to_string()), (9, "mate".to_string()), (8, "foe2".to_string())]
}

#[test]
fn the_owners_kills_and_deaths_land_in_their_rounds() {
    let kills = vec![
        kill(120, true, 7, 8, (Some("sniper"), Some("scout")), Some("headshot"), "sniperrifle"),
        kill(210, true, 8, 7, (Some("spy"), Some("sniper")), Some("feign_death"), "knife"),
        kill(130, true, 7, 8, (None, None), Some("feign_death"), "knife"),
        kill(140, false, 7, 8, (None, None), None, "shotgun"),
        kill(305, true, 7, 8, (None, None), None, "shotgun"),
        kill(250, true, 8, 9, (None, None), None, "shotgun"),
        kill(260, true, 7, 9, (None, None), None, "shotgun"),
    ];
    let m = enrich(&log(), &kills, Some(SteamId::from_account_id(7)), &players(), Some(Team::Red), 2);
    assert_eq!(m.len(), 3);

    assert_eq!((m[0].round, m[0].at_s, m[0].mine), (0, 20, true));
    assert_eq!(m[0].team, Some(Team::Blue), "a kill costs the other team a player");
    assert_eq!(m[0].player.as_deref(), Some("foe2"), "the last player of an account names it");
    assert_eq!(m[0].killer.as_deref(), Some("me"));
    assert_eq!(m[0].value, "scout · headshot · sniperrifle");

    assert_eq!((m[1].round, m[1].at_s, m[1].mine), (1, 10, false));
    assert_eq!(m[1].team, Some(Team::Red), "a death costs our team a player");
    assert_eq!(m[1].value, "spy · knife", "a feign is no kind of kill");

    assert_eq!((m[2].round, m[2].at_s, m[2].mine), (1, 60, true), "a round's end is inside it");
    assert_eq!(m[2].player.as_deref(), Some("mate"));
    assert_eq!(m[2].value, "shotgun");
}

#[test]
fn no_owner_no_markers() {
    let kills = vec![kill(120, true, 7, 8, (None, None), None, "shotgun")];
    assert!(enrich(&log(), &kills, None, &players(), None, 3).is_empty());
    let m = enrich(&log(), &kills, Some(SteamId::from_account_id(7)), &players(), None, 3);
    assert_eq!(m.len(), 1);
    assert_eq!(m[0].team, None);
}
