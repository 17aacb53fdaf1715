use hl::context::{classify, Game, Kind, Official, DAY, HOUR};
use std::collections::HashMap;

const T0: i64 = 1_700_000_000;

fn official(id: i64, time: i64, a: &[u32], b: &[u32]) -> Official {
    let mut roster = HashMap::new();
    roster.extend(a.iter().map(|&p| (p, 1)));
    roster.extend(b.iter().map(|&p| (p, 2)));
    Official { match_id: id, time, clan1: (1, "Ours".into()), clan2: (2, "Theirs".into()), roster }
}

fn game(id: i64, at: i64, mates: &[u32], opps: &[u32]) -> Game {
    Game { log_id: id, played_at: at, trends_match: None, mates: mates.to_vec(), opponents: opps.to_vec() }
}

const US: [u32; 8] = [1, 2, 3, 4, 5, 6, 7, 8];
const THEM: [u32; 9] = [21, 22, 23, 24, 25, 26, 27, 28, 29];

/// A season of team games: the same eight teammates every few days.
fn season() -> Vec<Game> {
    (0..10).map(|i| game(100 + i, T0 + i * 3 * DAY, &US, &[40, 41, 42, 43, 44, 45, 46, 47, 48])).collect()
}

#[test]
fn untagged_official_is_found_by_roster() {
    let o = official(9, T0 + 5 * DAY, &US, &THEM);
    let mut games = season();
    games.push(game(1, T0 + 5 * DAY + HOUR, &US, &THEM));
    let ctx = classify(&games, &[o]);
    let off = ctx.iter().find(|c| c.log_id == 1).unwrap();
    assert_eq!(off.kind, Kind::Official);
    assert_eq!(off.etf2l_match_id, Some(9));
    assert_eq!(off.link_method, Some("roster"));
    assert_eq!(off.team.as_ref().unwrap().1, "Ours");
    assert_eq!(off.opponent.as_ref().unwrap().1, "Theirs");
}

#[test]
fn the_warmup_before_an_official_is_not_the_official() {
    let o = official(9, T0 + 5 * DAY, &US, &THEM);
    let mut games = season();
    games.push(game(2, T0 + 5 * DAY - 30 * 60, &US, &[60, 61, 62, 63, 64, 65, 66, 67, 68]));
    games.push(game(1, T0 + 5 * DAY + HOUR, &US, &THEM));
    let ctx = classify(&games, &[o]);
    let warm = ctx.iter().find(|c| c.log_id == 2).unwrap();
    assert_eq!(warm.kind, Kind::Scrim);
    assert_eq!(warm.team.as_ref().unwrap().1, "Ours", "named from the official's roster");
}

#[test]
fn a_trends_tag_wins_even_without_rosters() {
    let mut g = game(3, T0, &US, &THEM);
    g.trends_match = Some(77);
    let ctx = classify(&[g], &[]);
    assert_eq!(ctx[0].kind, Kind::Official);
    assert_eq!(ctx[0].link_method, Some("trends"));
    assert_eq!(ctx[0].team, None);
}

#[test]
fn owner_side_follows_the_roster_not_the_clan_order() {
    let o = official(9, T0, &THEM, &US);
    let mut g = game(4, T0 + HOUR, &US, &THEM);
    g.trends_match = Some(9);
    let ctx = classify(&[g], &[o]);
    assert_eq!(ctx[0].team.as_ref().unwrap().0, 2);
    assert_eq!(ctx[0].opponent.as_ref().unwrap().0, 1);
}

#[test]
fn a_fresh_team_every_game_is_a_pug() {
    let games: Vec<Game> = (0..10)
        .map(|i| {
            let base = 1000 + i as u32 * 10;
            game(i, T0 + i * DAY, &(base..base + 8).collect::<Vec<_>>(), &THEM)
        })
        .collect();
    assert!(classify(&games, &[]).iter().all(|c| c.kind == Kind::Pug && c.regulars == 0));
}

#[test]
fn regulars_need_enough_games_nearby() {
    let mut games: Vec<Game> = (0..5).map(|i| game(i, T0 + i * DAY, &US, &THEM)).collect();
    games.push(game(9, T0 + 365 * DAY, &US, &THEM));
    let ctx = classify(&games, &[]);
    assert_eq!(ctx[0].regulars, 0, "five games is one short of a regular");
    assert_eq!(ctx[5].kind, Kind::Pug);
}

#[test]
fn scrim_opponent_is_named_from_any_roster() {
    let o = official(9, T0, &US, &THEM);
    let mut games = season();
    games.push(game(5, T0 + 20 * DAY, &US, &THEM[..6]));
    let ctx = classify(&games, &[o]);
    let s = ctx.iter().find(|c| c.log_id == 5).unwrap();
    assert_eq!(s.kind, Kind::Scrim);
    assert_eq!(s.opponent.as_ref().unwrap().1, "Theirs");
}

#[test]
fn a_new_team_is_recognised_by_its_roster_before_anyone_is_a_regular() {
    let o = official(9, T0, &US, &THEM);
    let mut off = game(1, T0 + HOUR, &US, &THEM);
    off.trends_match = Some(9);
    let games = vec![off, game(2, T0 + DAY, &US, &[50, 51]), game(3, T0 + 2 * DAY, &US[..5], &[50, 51])];
    let ctx = classify(&games, &[o]);
    assert_eq!(ctx[1].regulars, 0);
    assert_eq!(ctx[1].kind, Kind::Scrim);
    assert_eq!(ctx[1].team.as_ref().unwrap().1, "Ours");
    assert_eq!(ctx[2].kind, Kind::Scrim, "five of the roster is enough");
}

#[test]
fn four_of_a_roster_names_a_scrim_but_does_not_make_a_pug_one() {
    let o = official(9, T0, &US, &THEM);
    let mut off = game(1, T0 + HOUR, &US, &THEM);
    off.trends_match = Some(9);
    let games = vec![off, game(2, T0 + DAY, &[1, 2, 3, 4, 90, 91, 92, 93], &[50])];
    assert_eq!(classify(&games, &[o])[1].kind, Kind::Pug);
}

#[test]
fn team_names_expire() {
    let o = official(9, T0, &US, &THEM);
    let mut games = season();
    let late: Vec<Game> = (0..8).map(|i| game(200 + i, T0 + 400 * DAY + i * DAY, &US, &[50, 51, 52])).collect();
    games.extend(late);
    let ctx = classify(&games, &[o]);
    let last = ctx.iter().find(|c| c.log_id == 207).unwrap();
    assert_eq!(last.kind, Kind::Scrim);
    assert_eq!(last.team, None, "a roster from over a year ago names nothing");
}

#[test]
fn every_game_gets_one_context_in_order() {
    let games = season();
    let ctx = classify(&games, &[]);
    assert_eq!(ctx.len(), games.len());
    assert!(ctx.iter().zip(&games).all(|(c, g)| c.log_id == g.log_id));
    assert!(ctx.iter().skip(2).all(|c| c.kind == Kind::Scrim && c.regulars == 8));
    assert_eq!(Kind::Scrim.as_str(), "scrim");
    assert_eq!(Kind::Official.as_str(), "official");
    assert_eq!(Kind::Pug.as_str(), "pug");
}
