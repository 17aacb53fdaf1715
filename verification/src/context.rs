//! What kind of game each match was: an ETF2L official, a scrim, or a pug.
//!
//! **Officials.** trends.tf tags most of them. The rest are found through the
//! ETF2L rosters: an official's log is one where the owner's side is mostly
//! one team's roster and the other side mostly the opponent's, close to the
//! scheduled time.
//!
//! **Scrims.** A team game is one where most of the owner's side are
//! *regulars*: people who were on the owner's team often around that date.
//! The team is named from the nearest official whose roster holds most of the
//! owner's side; the opponent likewise, from any official roster. A roster
//! also catches the first scrims with a newly joined team, before anyone has
//! played enough games to count as a regular.
use std::collections::HashMap;
use vstd::prelude::*;

verus! {

broadcast use vstd::std_specs::hash::group_hash_axioms;

pub const HOUR: i64 = 3600;
pub const DAY: i64 = 24 * HOUR;
/// An official's log starts at most this long before the scheduled time...
pub const OFFICIAL_BEFORE: i64 = 4 * HOUR;
/// ...and at most this long after.
pub const OFFICIAL_AFTER: i64 = 10 * HOUR;
/// Players of the right roster needed on each side to call a log an official.
pub const ROSTER_SIDE_MIN: usize = 5;
/// A teammate is a regular around a date when they were on the owner's team
/// at least `REGULAR_MIN_GAMES` times within `REGULAR_WINDOW` either side.
pub const REGULAR_WINDOW: i64 = 45 * DAY;
pub const REGULAR_MIN_GAMES: usize = 6;
/// Regulars needed for a team game.
pub const SCRIM_MIN_REGULARS: usize = 5;
/// Rosters only name a team this close to the official they came from.
pub const TEAM_WINDOW: i64 = 150 * DAY;
/// Players of a roster needed on a side to put that team's name on it.
pub const TEAM_NAME_MIN: usize = 4;
/// Players of the owner's own roster that make a game a scrim even without
/// regulars.
pub const TEAM_GAME_ROSTER_MIN: usize = 5;

#[derive(Debug, Clone, Copy, PartialEq, Eq, Structural, Hash)]
pub enum Kind {
    Official,
    Scrim,
    Pug,
}

pub open spec fn kind_text(k: Kind) -> Seq<char> {
    match k {
        Kind::Official => "official"@,
        Kind::Scrim => "scrim"@,
        Kind::Pug => "pug"@,
    }
}

impl Kind {
    pub fn as_str(self) -> (r: &'static str)
        ensures
            r@ == kind_text(self),
    {
        match self {
            Kind::Official => "official",
            Kind::Scrim => "scrim",
            Kind::Pug => "pug",
        }
    }
}

/// One Highlander match the owner played, reduced to who was on which side.
#[derive(Debug, Clone)]
pub struct Game {
    pub log_id: i64,
    pub played_at: i64,
    /// The ETF2L match trends.tf linked, if any.
    pub trends_match: Option<i64>,
    /// The owner's teammates, owner excluded.
    pub mates: Vec<u32>,
    pub opponents: Vec<u32>,
}

pub struct GameV {
    pub log_id: i64,
    pub played_at: i64,
    pub trends_match: Option<i64>,
    pub mates: Seq<u32>,
    pub opponents: Seq<u32>,
}

impl View for Game {
    type V = GameV;

    open spec fn view(&self) -> GameV {
        GameV {
            log_id: self.log_id,
            played_at: self.played_at,
            trends_match: self.trends_match,
            mates: self.mates@,
            opponents: self.opponents@,
        }
    }
}

#[derive(Debug)]
pub struct Official {
    pub match_id: i64,
    pub time: i64,
    pub clan1: (i64, String),
    pub clan2: (i64, String),
    /// Registered players and their team. Mercs (no team) are left out.
    pub roster: HashMap<u32, i64>,
}

pub struct OfficialV {
    pub match_id: i64,
    pub time: i64,
    pub clan1: (i64, Seq<char>),
    pub clan2: (i64, Seq<char>),
    pub roster: Map<u32, i64>,
}

impl View for Official {
    type V = OfficialV;

    open spec fn view(&self) -> OfficialV {
        OfficialV {
            match_id: self.match_id,
            time: self.time,
            clan1: (self.clan1.0, self.clan1.1@),
            clan2: (self.clan2.0, self.clan2.1@),
            roster: self.roster@,
        }
    }
}

#[derive(Debug, Clone, PartialEq)]
pub struct Context {
    pub log_id: i64,
    pub kind: Kind,
    pub etf2l_match_id: Option<i64>,
    /// `trends` or `roster`, for officials.
    pub link_method: Option<&'static str>,
    pub team: Option<(i64, String)>,
    pub opponent: Option<(i64, String)>,
    pub regulars: usize,
}

pub struct ContextV {
    pub log_id: i64,
    pub kind: Kind,
    pub etf2l_match_id: Option<i64>,
    pub link_method: Option<Seq<char>>,
    pub team: Option<(i64, Seq<char>)>,
    pub opponent: Option<(i64, Seq<char>)>,
    pub regulars: nat,
}

pub open spec fn clan_view(c: Option<(i64, String)>) -> Option<(i64, Seq<char>)> {
    match c {
        Some((id, name)) => Some((id, name@)),
        None => None,
    }
}

pub open spec fn method_view(m: Option<&'static str>) -> Option<Seq<char>> {
    match m {
        Some(s) => Some(s@),
        None => None,
    }
}

impl View for Context {
    type V = ContextV;

    open spec fn view(&self) -> ContextV {
        ContextV {
            log_id: self.log_id,
            kind: self.kind,
            etf2l_match_id: self.etf2l_match_id,
            link_method: method_view(self.link_method),
            team: clan_view(self.team),
            opponent: clan_view(self.opponent),
            regulars: self.regulars as nat,
        }
    }
}

// ---------------------------------------------------------------------------
// Counting
// ---------------------------------------------------------------------------

/// How many of `players` the roster registers for `team`.
pub open spec fn count_on(players: Seq<u32>, roster: Map<u32, i64>, team: i64) -> nat
    decreases players.len(),
{
    if players.len() == 0 {
        0
    } else {
        count_on(players.drop_last(), roster, team) + if roster.contains_key(players.last())
            && roster[players.last()] == team {
            1nat
        } else {
            0nat
        }
    }
}

/// How many times `m` is among `ms`.
pub open spec fn occurrences(ms: Seq<u32>, m: u32) -> nat
    decreases ms.len(),
{
    if ms.len() == 0 {
        0
    } else {
        occurrences(ms.drop_last(), m) + if ms.last() == m {
            1nat
        } else {
            0nat
        }
    }
}

/// How often `m` was on the owner's team in games played within `[lo, hi]`.
pub open spec fn appearances(gs: Seq<GameV>, m: u32, lo: int, hi: int) -> nat
    decreases gs.len(),
{
    if gs.len() == 0 {
        0
    } else {
        appearances(gs.drop_last(), m, lo, hi) + if lo <= gs.last().played_at <= hi {
            occurrences(gs.last().mates, m)
        } else {
            0nat
        }
    }
}

pub open spec fn is_regular(gs: Seq<GameV>, m: u32, at: int) -> bool {
    appearances(gs, m, at - REGULAR_WINDOW, at + REGULAR_WINDOW) >= REGULAR_MIN_GAMES
}

/// How many of `ms` were regulars at `at`.
pub open spec fn regulars_among(gs: Seq<GameV>, ms: Seq<u32>, at: int) -> nat
    decreases ms.len(),
{
    if ms.len() == 0 {
        0
    } else {
        regulars_among(gs, ms.drop_last(), at) + if is_regular(gs, ms.last(), at) {
            1nat
        } else {
            0nat
        }
    }
}

/// For game `i`, how many of the owner's teammates were regulars then.
pub open spec fn regular_count(gs: Seq<GameV>, i: int) -> nat {
    regulars_among(gs, gs[i].mates, gs[i].played_at as int)
}

pub open spec fn abs(x: int) -> int {
    if x < 0 {
        -x
    } else {
        x
    }
}

// ---------------------------------------------------------------------------
// Officials
// ---------------------------------------------------------------------------

/// The owner's side mostly registered for `ours`, the other for `theirs`.
pub open spec fn sides_fit(g: GameV, o: OfficialV, ours: i64, theirs: i64) -> bool {
    count_on(g.mates, o.roster, ours) >= ROSTER_SIDE_MIN && count_on(g.opponents, o.roster, theirs)
        >= ROSTER_SIDE_MIN
}

/// The game could be this official: close to its time, with each side mostly
/// one of its rosters.
pub open spec fn roster_fits(g: GameV, o: OfficialV) -> bool {
    &&& o.time - OFFICIAL_BEFORE <= g.played_at <= o.time + OFFICIAL_AFTER
    &&& (sides_fit(g, o, o.clan1.0, o.clan2.0) || sides_fit(g, o, o.clan2.0, o.clan1.0))
}

/// Among the first `n` officials, the one that fits closest to the game's
/// time; the earliest of equally close ones.
pub open spec fn roster_pick(g: GameV, os: Seq<OfficialV>, n: int) -> Option<int>
    decreases n,
{
    if n <= 0 {
        None
    } else {
        let prev = roster_pick(g, os, n - 1);
        let k = n - 1;
        if roster_fits(g, os[k]) && (prev matches Some(p) ==> abs(g.played_at - os[k].time) < abs(
            g.played_at - os[p].time,
        )) {
            Some(k)
        } else {
            prev
        }
    }
}

/// The official this game was, judged by who was on each side.
pub open spec fn roster_match_spec(g: GameV, os: Seq<OfficialV>) -> Option<i64> {
    match roster_pick(g, os, os.len() as int) {
        Some(k) => Some(os[k].match_id),
        None => None,
    }
}

/// The official with this id: the last of the first `n` that has it.
pub open spec fn by_id(os: Seq<OfficialV>, id: i64, n: int) -> Option<int>
    decreases n,
{
    if n <= 0 {
        None
    } else if os[n - 1].match_id == id {
        Some(n - 1)
    } else {
        by_id(os, id, n - 1)
    }
}

/// Which clan the owner played for, and which against: whose roster the
/// owner's side overlaps more; unknown when neither does.
pub open spec fn sides_spec(g: GameV, o: OfficialV) -> (
    Option<(i64, Seq<char>)>,
    Option<(i64, Seq<char>)>,
) {
    let one = count_on(g.mates, o.roster, o.clan1.0) + count_on(g.opponents, o.roster, o.clan2.0);
    let two = count_on(g.mates, o.roster, o.clan2.0) + count_on(g.opponents, o.roster, o.clan1.0);
    if one > two {
        (Some(o.clan1), Some(o.clan2))
    } else if one < two {
        (Some(o.clan2), Some(o.clan1))
    } else {
        (None, None)
    }
}

/// The first pass: officials, by trends.tf's tag or by roster, and for
/// everything else scrim or pug by the regulars.
pub open spec fn first_pass(gs: Seq<GameV>, os: Seq<OfficialV>, i: int) -> ContextV {
    let g = gs[i];
    let linked = match g.trends_match {
        Some(id) => Some((id, "trends"@)),
        None => match roster_match_spec(g, os) {
            Some(id) => Some((id, "roster"@)),
            None => None,
        },
    };
    match linked {
        Some((id, method)) => {
            let (team, opponent) = match by_id(os, id, os.len() as int) {
                Some(k) => sides_spec(g, os[k]),
                None => (None, None),
            };
            ContextV {
                log_id: g.log_id,
                kind: Kind::Official,
                etf2l_match_id: Some(id),
                link_method: Some(method),
                team,
                opponent,
                regulars: regular_count(gs, i),
            }
        },
        None => ContextV {
            log_id: g.log_id,
            kind: if regular_count(gs, i) >= SCRIM_MIN_REGULARS {
                Kind::Scrim
            } else {
                Kind::Pug
            },
            etf2l_match_id: None,
            link_method: None,
            team: None,
            opponent: None,
            regulars: regular_count(gs, i),
        },
    }
}

// ---------------------------------------------------------------------------
// Team names
// ---------------------------------------------------------------------------

/// A team a roster can name: when its official was, the clan, and which
/// official's roster.
pub type Candidate = (i64, (i64, Seq<char>), int);

/// The owner's teams as their officials show them, in game order.
pub open spec fn own_teams(gs: Seq<GameV>, os: Seq<OfficialV>, n: int) -> Seq<Candidate>
    decreases n,
{
    if n <= 0 {
        Seq::empty()
    } else {
        let prev = own_teams(gs, os, n - 1);
        let c = first_pass(gs, os, n - 1);
        match c.etf2l_match_id {
            Some(id) => match by_id(os, id, os.len() as int) {
                Some(k) => match c.team {
                    Some(clan) => prev.push((os[k].time, clan, k)),
                    None => prev,
                },
                None => prev,
            },
            None => prev,
        }
    }
}

/// Every clan of the first `n` officials but the owner's own.
pub open spec fn rival_teams(os: Seq<OfficialV>, mine: Option<i64>, n: int) -> Seq<Candidate>
    decreases n,
{
    if n <= 0 {
        Seq::empty()
    } else {
        let prev = rival_teams(os, mine, n - 1);
        let o = os[n - 1];
        let a = if Some(o.clan1.0) != mine {
            prev.push((o.time, o.clan1, n - 1))
        } else {
            prev
        };
        if Some(o.clan2.0) != mine {
            a.push((o.time, o.clan2, n - 1))
        } else {
            a
        }
    }
}

/// Among the first `n` candidates near `at` whose roster holds at least
/// [`TEAM_NAME_MIN`] of `players`, the one holding most, then the closest in
/// time, then the last.
pub open spec fn team_pick(
    players: Seq<u32>,
    at: int,
    os: Seq<OfficialV>,
    cs: Seq<Candidate>,
    n: int,
) -> Option<int>
    decreases n,
{
    if n <= 0 {
        None
    } else {
        let prev = team_pick(players, at, os, cs, n - 1);
        let k = n - 1;
        let c = cs[k];
        let held = count_on(players, os[c.2].roster, c.1.0);
        if abs(at - c.0) <= TEAM_WINDOW && held >= TEAM_NAME_MIN && (prev matches Some(p) ==> {
            let q = cs[p];
            let held_p = count_on(players, os[q.2].roster, q.1.0);
            held > held_p || (held == held_p && abs(at - c.0) <= abs(at - q.0))
        }) {
            Some(k)
        } else {
            prev
        }
    }
}

/// The team whose nearby roster holds most of `players`, and how many.
pub open spec fn best_team_spec(
    players: Seq<u32>,
    at: int,
    os: Seq<OfficialV>,
    cs: Seq<Candidate>,
) -> Option<(nat, (i64, Seq<char>))> {
    match team_pick(players, at, os, cs, cs.len() as int) {
        Some(k) => Some((count_on(players, os[cs[k].2].roster, cs[k].1.0), cs[k].1)),
        None => None,
    }
}

/// The second pass: scrims get their team and opponent named, and pugs
/// played with most of one of the owner's rosters become scrims.
pub open spec fn context_spec(gs: Seq<GameV>, os: Seq<OfficialV>, i: int) -> ContextV {
    let c = first_pass(gs, os, i);
    if c.kind == Kind::Official {
        c
    } else {
        let g = gs[i];
        let team = best_team_spec(
            g.mates,
            g.played_at as int,
            os,
            own_teams(gs, os, gs.len() as int),
        );
        let kind = if c.kind == Kind::Pug && (team matches Some((n, _)) && n
            >= TEAM_GAME_ROSTER_MIN) {
            Kind::Scrim
        } else {
            c.kind
        };
        if kind != Kind::Scrim {
            c
        } else {
            let named = match team {
                Some((_, clan)) => Some(clan),
                None => None,
            };
            let mine = match named {
                Some(clan) => Some(clan.0),
                None => None,
            };
            let opponent = match best_team_spec(
                g.opponents,
                g.played_at as int,
                os,
                rival_teams(os, mine, os.len() as int),
            ) {
                Some((_, clan)) => Some(clan),
                None => None,
            };
            ContextV { kind: Kind::Scrim, team: named, opponent, ..c }
        }
    }
}

/// A match trends.tf tagged with an ETF2L match is that official, linked
/// by the tag, whatever the rosters say.
pub proof fn lemma_trends_tag_is_official(gs: Seq<GameV>, os: Seq<OfficialV>, i: int)
    requires
        0 <= i < gs.len(),
        gs[i].trends_match is Some,
    ensures
        context_spec(gs, os, i).kind == Kind::Official,
        context_spec(gs, os, i).etf2l_match_id == gs[i].trends_match,
        context_spec(gs, os, i).link_method == Some("trends"@),
{
}

/// Exactly the officials carry an ETF2L match and a way it was found.
pub proof fn lemma_only_officials_are_linked(gs: Seq<GameV>, os: Seq<OfficialV>, i: int)
    requires
        0 <= i < gs.len(),
    ensures
        (context_spec(gs, os, i).etf2l_match_id is Some) == (context_spec(gs, os, i).kind == Kind::Official),
        (context_spec(gs, os, i).link_method is Some) == (context_spec(gs, os, i).kind == Kind::Official),
{
}


pub open spec fn games_view(gs: Seq<Game>) -> Seq<GameV> {
    gs.map_values(|g: Game| g@)
}

pub open spec fn officials_view(os: Seq<Official>) -> Seq<OfficialV> {
    os.map_values(|o: Official| o@)
}

// ---------------------------------------------------------------------------
// The passes
// ---------------------------------------------------------------------------

fn on_roster(players: &[u32], roster: &HashMap<u32, i64>, team: i64) -> (n: usize)
    ensures
        n == count_on(players@, roster@, team),
        n <= players@.len(),
{
    let mut n: usize = 0;
    let mut i: usize = 0;
    while i < players.len()
        invariant
            i <= players@.len(),
            n <= i,
            n == count_on(players@.take(i as int), roster@, team),
        decreases players@.len() - i,
    {
        assert(players@.take(i + 1).drop_last() =~= players@.take(i as int));
        match roster.get(&players[i]) {
            Some(t) => {
                if *t == team {
                    n += 1;
                }
            },
            None => {},
        }
        i += 1;
    }
    assert(players@.take(players@.len() as int) =~= players@);
    n
}

proof fn lemma_occurrences_prefix(ms: Seq<u32>, m: u32, k: int)
    requires
        0 <= k <= ms.len(),
    ensures
        occurrences(ms.take(k), m) <= occurrences(ms, m),
    decreases ms.len() - k,
{
    if k < ms.len() {
        lemma_occurrences_prefix(ms, m, k + 1);
        assert(ms.take(k + 1).drop_last() =~= ms.take(k));
    } else {
        assert(ms.take(k) =~= ms);
    }
}

proof fn lemma_appearances_prefix(gs: Seq<GameV>, m: u32, lo: int, hi: int, h: int)
    requires
        0 <= h <= gs.len(),
    ensures
        appearances(gs.take(h), m, lo, hi) <= appearances(gs, m, lo, hi),
    decreases gs.len() - h,
{
    if h < gs.len() {
        lemma_appearances_prefix(gs, m, lo, hi, h + 1);
        assert(gs.take(h + 1).drop_last() =~= gs.take(h));
    } else {
        assert(gs.take(h) =~= gs);
    }
}

/// How many times `m` is among `ms`, up to `cap`.
fn occurrences_upto(ms: &[u32], m: u32, cap: usize) -> (n: usize)
    ensures
        n == if occurrences(ms@, m) < cap {
            occurrences(ms@, m)
        } else {
            cap as nat
        },
{
    let mut n: usize = 0;
    let mut i: usize = 0;
    while i < ms.len()
        invariant
            i <= ms@.len(),
            n < cap || cap == 0,
            n == occurrences(ms@.take(i as int), m) || cap == 0,
            cap == 0 ==> n == 0,
        decreases ms@.len() - i,
    {
        if cap == 0 {
            return 0;
        }
        assert(ms@.take(i + 1).drop_last() =~= ms@.take(i as int));
        if ms[i] == m {
            n += 1;
            if n >= cap {
                proof {
                    lemma_occurrences_prefix(ms@, m, i + 1);
                }
                return cap;
            }
        }
        i += 1;
    }
    assert(ms@.take(ms@.len() as int) =~= ms@);
    n
}

/// Whether `m` was a regular at `at`.
fn is_regular_of(games: &[Game], m: u32, at: i64) -> (b: bool)
    ensures
        b == is_regular(games_view(games@), m, at as int),
{
    let ghost gs = games_view(games@);
    let lo: i128 = at as i128 - REGULAR_WINDOW as i128;
    let hi: i128 = at as i128 + REGULAR_WINDOW as i128;
    let mut n: usize = 0;
    let mut h: usize = 0;
    while h < games.len()
        invariant
            h <= games@.len(),
            gs == games_view(games@),
            lo == at - REGULAR_WINDOW,
            hi == at + REGULAR_WINDOW,
            n < REGULAR_MIN_GAMES,
            n == appearances(gs.take(h as int), m, lo as int, hi as int),
        decreases games@.len() - h,
    {
        assert(gs.take(h + 1).drop_last() =~= gs.take(h as int));
        assert(gs[h as int] == games@[h as int]@);
        let g = &games[h];
        if lo <= g.played_at as i128 && g.played_at as i128 <= hi {
            let k = occurrences_upto(g.mates.as_slice(), m, REGULAR_MIN_GAMES - n);
            if n + k >= REGULAR_MIN_GAMES {
                proof {
                    lemma_appearances_prefix(gs, m, lo as int, hi as int, h + 1);
                }
                return true;
            }
            n = n + k;
        }
        h += 1;
    }
    assert(gs.take(games@.len() as int) =~= gs);
    false
}

/// For each game, how many of the owner's teammates were regulars then.
fn regular_counts(games: &[Game]) -> (r: Vec<usize>)
    ensures
        r@.len() == games@.len(),
        forall|i: int| 0 <= i < games@.len() ==> #[trigger] r@[i] == regular_count(games_view(games@), i),
{
    let ghost gs = games_view(games@);
    let mut r: Vec<usize> = Vec::new();
    let mut i: usize = 0;
    while i < games.len()
        invariant
            i <= games@.len(),
            gs == games_view(games@),
            r@.len() == i,
            forall|j: int| 0 <= j < i ==> #[trigger] r@[j] == regular_count(gs, j),
        decreases games@.len() - i,
    {
        let g = &games[i];
        assert(gs[i as int] == g@);
        let mut n: usize = 0;
        let mut k: usize = 0;
        while k < g.mates.len()
            invariant
                k <= g.mates@.len(),
                n <= k,
                gs == games_view(games@),
                n == regulars_among(gs, g.mates@.take(k as int), g.played_at as int),
            decreases g.mates@.len() - k,
        {
            assert(g.mates@.take(k + 1).drop_last() =~= g.mates@.take(k as int));
            if is_regular_of(games, g.mates[k], g.played_at) {
                n += 1;
            }
            k += 1;
        }
        assert(g.mates@.take(g.mates@.len() as int) =~= g.mates@);
        r.push(n);
        i += 1;
    }
    r
}

fn dist(a: i64, b: i64) -> (d: i128)
    ensures
        d == abs(a - b),
{
    if a >= b {
        a as i128 - b as i128
    } else {
        b as i128 - a as i128
    }
}

fn roster_fits_of(g: &Game, o: &Official) -> (b: bool)
    ensures
        b == roster_fits(g@, o@),
{
    let t = g.played_at as i128;
    if !(o.time as i128 - OFFICIAL_BEFORE as i128 <= t && t <= o.time as i128 + OFFICIAL_AFTER as i128) {
        return false;
    }
    let (a, b) = (o.clan1.0, o.clan2.0);
    let fits_ab = on_roster(g.mates.as_slice(), &o.roster, a) >= ROSTER_SIDE_MIN && on_roster(
        g.opponents.as_slice(),
        &o.roster,
        b,
    ) >= ROSTER_SIDE_MIN;
    let fits_ba = on_roster(g.mates.as_slice(), &o.roster, b) >= ROSTER_SIDE_MIN && on_roster(
        g.opponents.as_slice(),
        &o.roster,
        a,
    ) >= ROSTER_SIDE_MIN;
    fits_ab || fits_ba
}

/// The official this game was, judged by who was on each side: the closest
/// to the scheduled time when more than one fits.
fn roster_match(g: &Game, officials: &[Official]) -> (r: Option<i64>)
    ensures
        r == roster_match_spec(g@, officials_view(officials@)),
{
    let ghost os = officials_view(officials@);
    let mut best: Option<usize> = None;
    let mut k: usize = 0;
    while k < officials.len()
        invariant
            k <= officials@.len(),
            os == officials_view(officials@),
            best is None <==> roster_pick(g@, os, k as int) is None,
            best matches Some(p) ==> (p < k && roster_pick(g@, os, k as int) == Some(p as int)),
        decreases officials@.len() - k,
    {
        let o = &officials[k];
        assert(os[k as int] == o@);
        if roster_fits_of(g, o) {
            let take = match best {
                None => true,
                Some(p) => {
                    assert(os[p as int] == officials@[p as int]@);
                    dist(g.played_at, o.time) < dist(g.played_at, officials[p].time)
                },
            };
            if take {
                best = Some(k);
            }
        }
        k += 1;
    }
    match best {
        Some(p) => {
            assert(os[p as int] == officials@[p as int]@);
            Some(officials[p].match_id)
        },
        None => None,
    }
}

/// The official with this id: the last one that has it.
fn official_index(officials: &[Official], id: i64) -> (r: Option<usize>)
    ensures
        r is None <==> by_id(officials_view(officials@), id, officials@.len() as int) is None,
        r matches Some(k) ==> (k < officials@.len() && by_id(
            officials_view(officials@),
            id,
            officials@.len() as int,
        ) == Some(k as int)),
{
    let ghost os = officials_view(officials@);
    let mut n: usize = officials.len();
    while n > 0
        invariant
            n <= officials@.len(),
            os == officials_view(officials@),
            by_id(os, id, officials@.len() as int) == by_id(os, id, n as int),
        decreases n,
    {
        assert(os[n - 1] == officials@[n - 1]@);
        if officials[n - 1].match_id == id {
            return Some(n - 1);
        }
        n -= 1;
    }
    None
}

fn clan_copy(c: &(i64, String)) -> (r: (i64, String))
    ensures
        r.0 == c.0,
        r.1@ == c.1@,
{
    (c.0, c.1.clone())
}

/// Which clan the owner played for, and which against.
fn sides(g: &Game, o: &Official) -> (r: (Option<(i64, String)>, Option<(i64, String)>))
    ensures
        (clan_view(r.0), clan_view(r.1)) == sides_spec(g@, o@),
{
    let one = on_roster(g.mates.as_slice(), &o.roster, o.clan1.0) as u128 + on_roster(
        g.opponents.as_slice(),
        &o.roster,
        o.clan2.0,
    ) as u128;
    let two = on_roster(g.mates.as_slice(), &o.roster, o.clan2.0) as u128 + on_roster(
        g.opponents.as_slice(),
        &o.roster,
        o.clan1.0,
    ) as u128;
    if one > two {
        (Some(clan_copy(&o.clan1)), Some(clan_copy(&o.clan2)))
    } else if one < two {
        (Some(clan_copy(&o.clan2)), Some(clan_copy(&o.clan1)))
    } else {
        (None, None)
    }
}

/// A team a roster can name, as held while classifying: when its official
/// was, the clan's id and name, and which official.
pub type Team = (i64, i64, String, usize);

pub open spec fn cand_view(c: Team) -> Candidate {
    (c.0, (c.1, c.2@), c.3 as int)
}

pub open spec fn cands_view(cs: Seq<Team>) -> Seq<Candidate> {
    cs.map_values(|c: Team| cand_view(c))
}

pub open spec fn cands_ok(cs: Seq<Team>, n: int) -> bool {
    forall|k: int|
        0 <= k < cs.len() ==> (#[trigger] cs[k]).3 < n
}

/// The team whose nearby roster holds most of `players`, and how many of
/// them it holds. Ties go to the roster closest in time.
fn best_team(players: &[u32], at: i64, officials: &[Official], cands: &[Team]) -> (r: Option<
    (usize, (i64, String)),
>)
    requires
        cands_ok(cands@, officials@.len() as int),
    ensures
        match (r, best_team_spec(players@, at as int, officials_view(officials@), cands_view(cands@))) {
            (Some((n, clan)), Some((sn, sclan))) => n == sn && clan.0 == sclan.0 && clan.1@ == sclan.1,
            (None, None) => true,
            _ => false,
        },
{
    let ghost os = officials_view(officials@);
    let ghost cs = cands_view(cands@);
    let mut best: Option<(usize, usize, i128)> = None;
    let mut k: usize = 0;
    while k < cands.len()
        invariant
            k <= cands@.len(),
            os == officials_view(officials@),
            cs == cands_view(cands@),
            cands_ok(cands@, officials@.len() as int),
            best is None <==> team_pick(players@, at as int, os, cs, k as int) is None,
            best matches Some((p, hp, dp)) ==> {
                &&& p < k
                &&& team_pick(players@, at as int, os, cs, k as int) == Some(p as int)
                &&& hp == count_on(players@, os[cs[p as int].2].roster, cs[p as int].1.0)
                &&& dp == abs(at - cs[p as int].0)
            },
        decreases cands@.len() - k,
    {
        let c = &cands[k];
        assert(cs[k as int] == cand_view(*c));
        assert(os[c.3 as int] == officials@[c.3 as int]@);
        let d = dist(at, c.0);
        if d <= TEAM_WINDOW as i128 {
            let held = on_roster(players, &officials[c.3].roster, c.1);
            if held >= TEAM_NAME_MIN {
                let take = match best {
                    None => true,
                    Some((_, hp, dp)) => held > hp || (held == hp && d <= dp),
                };
                if take {
                    best = Some((k, held, d));
                }
            }
        }
        k += 1;
    }
    match best {
        Some((p, hp, _)) => {
            let c = &cands[p];
            assert(cs[p as int] == cand_view(*c));
            Some((hp, (c.1, c.2.clone())))
        },
        None => None,
    }
}

/// Every clan of the officials but the owner's own.
fn rivals(officials: &[Official], mine: Option<i64>) -> (r: Vec<Team>)
    ensures
        cands_view(r@) == rival_teams(officials_view(officials@), mine, officials@.len() as int),
        cands_ok(r@, officials@.len() as int),
{
    let ghost os = officials_view(officials@);
    let mut r: Vec<Team> = Vec::new();
    let mut n: usize = 0;
    while n < officials.len()
        invariant
            n <= officials@.len(),
            os == officials_view(officials@),
            cands_view(r@) == rival_teams(os, mine, n as int),
            cands_ok(r@, officials@.len() as int),
        decreases officials@.len() - n,
    {
        let o = &officials[n];
        assert(os[n as int] == o@);
        if mine != Some(o.clan1.0) {
            r.push((o.time, o.clan1.0, o.clan1.1.clone(), n));
        }
        if mine != Some(o.clan2.0) {
            r.push((o.time, o.clan2.0, o.clan2.1.clone(), n));
        }
        n += 1;
        assert(cands_view(r@) =~= rival_teams(os, mine, n as int));
    }
    r
}


/// The first pass for one game.
fn first_of(
    games: &[Game],
    officials: &[Official],
    i: usize,
    regulars: usize,
) -> (c: Context)
    requires
        i < games@.len(),
        regulars == regular_count(games_view(games@), i as int),
    ensures
        c@ == first_pass(games_view(games@), officials_view(officials@), i as int),
{
    let ghost gs = games_view(games@);
    let ghost os = officials_view(officials@);
    let g = &games[i];
    assert(gs[i as int] == g@);
    let linked: Option<(i64, &'static str)> = match g.trends_match {
        Some(id) => Some((id, "trends")),
        None => match roster_match(g, officials) {
            Some(id) => Some((id, "roster")),
            None => None,
        },
    };
    match linked {
        Some((id, method)) => {
            let (team, opponent) = match official_index(officials, id) {
                Some(k) => {
                    assert(os[k as int] == officials@[k as int]@);
                    sides(g, &officials[k])
                },
                None => (None, None),
            };
            Context {
                log_id: g.log_id,
                kind: Kind::Official,
                etf2l_match_id: Some(id),
                link_method: Some(method),
                team,
                opponent,
                regulars,
            }
        },
        None => Context {
            log_id: g.log_id,
            kind: if regulars >= SCRIM_MIN_REGULARS {
                Kind::Scrim
            } else {
                Kind::Pug
            },
            etf2l_match_id: None,
            link_method: None,
            team: None,
            opponent: None,
            regulars,
        },
    }
}

/// The second pass for one game.
fn name_teams(
    c: &mut Context,
    g: &Game,
    officials: &[Official],
    own: &[Team],
    Ghost(gs): Ghost<Seq<GameV>>,
    Ghost(i): Ghost<int>,
)
    requires
        0 <= i < gs.len(),
        gs[i] == g@,
        old(c)@ == first_pass(gs, officials_view(officials@), i),
        cands_view(own@) == own_teams(gs, officials_view(officials@), gs.len() as int),
        cands_ok(own@, officials@.len() as int),
    ensures
        final(c)@ == context_spec(gs, officials_view(officials@), i),
{
    if c.kind == Kind::Official {
        return;
    }
    let team = best_team(g.mates.as_slice(), g.played_at, officials, own);
    let roster_game = match &team {
        Some((n, _)) => *n >= TEAM_GAME_ROSTER_MIN,
        None => false,
    };
    if c.kind == Kind::Pug && roster_game {
        c.kind = Kind::Scrim;
    }
    if c.kind != Kind::Scrim {
        return;
    }
    let named = match team {
        Some((_, clan)) => Some(clan),
        None => None,
    };
    let mine = match &named {
        Some(clan) => Some(clan.0),
        None => None,
    };
    let rs = rivals(officials, mine);
    let opponent = match best_team(g.opponents.as_slice(), g.played_at, officials, rs.as_slice()) {
        Some((_, clan)) => Some(clan),
        None => None,
    };
    c.team = named;
    c.opponent = opponent;
}

/// Each game's kind, with the ETF2L match and the teams where they are
/// known: officials by trends.tf's tag or by roster, then scrims and pugs by
/// the regulars, then scrims named from the rosters.
pub fn classify(games: &[Game], officials: &[Official]) -> (r: Vec<Context>)
    ensures
        r@.len() == games@.len(),
        forall|i: int|
            0 <= i < games@.len() ==> #[trigger] r@[i]@ == context_spec(
                games_view(games@),
                officials_view(officials@),
                i,
            ),
{
    let ghost gs = games_view(games@);
    let ghost os = officials_view(officials@);
    let regulars = regular_counts(games);
    let mut out: Vec<Context> = Vec::new();
    let mut i: usize = 0;
    while i < games.len()
        invariant
            i <= games@.len(),
            gs == games_view(games@),
            os == officials_view(officials@),
            regulars@.len() == games@.len(),
            forall|j: int| 0 <= j < games@.len() ==> #[trigger] regulars@[j] == regular_count(gs, j),
            out@.len() == i,
            forall|j: int| 0 <= j < i ==> #[trigger] out@[j]@ == first_pass(gs, os, j),
        decreases games@.len() - i,
    {
        let c = first_of(games, officials, i, regulars[i]);
        out.push(c);
        i += 1;
    }
    let mut own: Vec<Team> = Vec::new();
    let mut i: usize = 0;
    while i < out.len()
        invariant
            i <= out@.len() == games@.len(),
            gs == games_view(games@),
            os == officials_view(officials@),
            forall|j: int| 0 <= j < out@.len() ==> #[trigger] out@[j]@ == first_pass(gs, os, j),
            cands_view(own@) == own_teams(gs, os, i as int),
            cands_ok(own@, officials@.len() as int),
        decreases out@.len() - i,
    {
        let c = &out[i];
        assert(c@ == first_pass(gs, os, i as int));
        if let Some(id) = c.etf2l_match_id {
            if let Some(k) = official_index(officials, id) {
                if let Some(clan) = &c.team {
                    assert(os[k as int] == officials@[k as int]@);
                    own.push((officials[k].time, clan.0, clan.1.clone(), k));
                }
            }
        }
        i += 1;
        assert(cands_view(own@) =~= own_teams(gs, os, i as int));
    }
    let mut i: usize = 0;
    while i < out.len()
        invariant
            i <= out@.len() == games@.len(),
            gs == games_view(games@),
            os == officials_view(officials@),
            cands_view(own@) == own_teams(gs, os, gs.len() as int),
            cands_ok(own@, officials@.len() as int),
            forall|j: int| 0 <= j < i ==> #[trigger] out@[j]@ == context_spec(gs, os, j),
            forall|j: int| i <= j < out@.len() ==> #[trigger] out@[j]@ == first_pass(gs, os, j),
        decreases out@.len() - i,
    {
        assert(gs[i as int] == games@[i as int]@);
        name_teams(&mut out[i], &games[i], officials, own.as_slice(), Ghost(gs), Ghost(i as int));
        i += 1;
    }
    out
}

} // verus!
