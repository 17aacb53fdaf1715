//! ETF2L officials: a match as the API gives it, reduced to the row the
//! context pass reads, and which official each log was played inside, by
//! time alone.
use crate::normalize::{array_in, get, get_field, get_in, items_of, logs_json, opt_json, read_logs_json, str_of, Json};
use crate::steamid::{steam_parse, SteamId};
use vstd::prelude::*;

verus! {

/// How long after its scheduled time an official can still start. Measured
/// across this account's officials: the log started between 10 and 166
/// minutes after the scheduled time, and never before.
pub const OFFICIAL_WINDOW_S: i64 = 3 * 3600;

/// Match `m` could hold a log that started at `t`.
pub open spec fn in_window(t: i64, m: (i64, i64)) -> bool {
    t >= m.1 && t - m.1 <= OFFICIAL_WINDOW_S
}

/// The first match, among the first `n`, whose window holds `t` with the
/// smallest lead.
pub open spec fn nearest(matches: Seq<(i64, i64)>, t: i64, n: int) -> Option<int>
    decreases n,
{
    if n <= 0 {
        None
    } else {
        let prev = nearest(matches, t, n - 1);
        if in_window(t, matches[n - 1]) && (prev is None || t - matches[n - 1].1 < t
            - matches[prev->0].1) {
            Some(n - 1)
        } else {
            prev
        }
    }
}

/// `(log, match)` for each of the first `n` logs that falls in a window.
pub open spec fn by_time(logs: Seq<(i64, i64)>, matches: Seq<(i64, i64)>, n: int) -> Seq<(i64, i64)>
    decreases n,
{
    if n <= 0 {
        Seq::empty()
    } else {
        let prev = by_time(logs, matches, n - 1);
        match nearest(matches, logs[n - 1].1, matches.len() as int) {
            Some(k) => prev.push((logs[n - 1].0, matches[k].0)),
            None => prev,
        }
    }
}

pub proof fn lemma_nearest_range(matches: Seq<(i64, i64)>, t: i64, n: int)
    ensures
        nearest(matches, t, n) matches Some(k) ==> 0 <= k < n && in_window(t, matches[k]),
    decreases n,
{
    if n > 0 {
        lemma_nearest_range(matches, t, n - 1);
    }
}

fn nearest_of(matches: &[(i64, i64)], t: i64) -> (r: Option<usize>)
    ensures
        r matches Some(k) ==> nearest(matches@, t, matches@.len() as int) == Some(k as int),
        r is None ==> nearest(matches@, t, matches@.len() as int) is None,
{
    let mut best: Option<usize> = None;
    let mut i: usize = 0;
    while i < matches.len()
        invariant
            i <= matches@.len(),
            best matches Some(k) ==> nearest(matches@, t, i as int) == Some(k as int) && k < i,
            best is None ==> nearest(matches@, t, i as int) is None,
        decreases matches@.len() - i,
    {
        let (_, at) = matches[i];
        let inside = (t as i128) >= (at as i128) && (t as i128) - (at as i128) <= OFFICIAL_WINDOW_S as i128;
        if inside {
            let closer = match best {
                None => true,
                Some(k) => {
                    proof {
                        lemma_nearest_range(matches@, t, i as int);
                    }
                    (t as i128) - (at as i128) < (t as i128) - (matches[k].1 as i128)
                },
            };
            if closer {
                best = Some(i);
            }
        }
        i += 1;
    }
    best
}

/// Which ETF2L match each log was played inside, by time alone. `logs` and
/// `matches` are `(id, time)`; a log inside two windows goes to the match it
/// started soonest after.
pub fn match_by_time(logs: &[(i64, i64)], matches: &[(i64, i64)]) -> (out: Vec<(i64, i64)>)
    ensures
        out@ == by_time(logs@, matches@, logs@.len() as int),
{
    let mut out: Vec<(i64, i64)> = Vec::new();
    let mut i: usize = 0;
    while i < logs.len()
        invariant
            i <= logs@.len(),
            out@ == by_time(logs@, matches@, i as int),
        decreases logs@.len() - i,
    {
        let (log_id, played_at) = logs[i];
        if let Some(k) = nearest_of(matches, played_at) {
            proof {
                lemma_nearest_range(matches@, played_at, matches@.len() as int);
            }
            out.push((log_id, matches[k].0));
        }
        i += 1;
    }
    out
}

/// A log lands only in a window it started inside.
pub proof fn lemma_marked_logs_started_inside(
    logs: Seq<(i64, i64)>,
    matches: Seq<(i64, i64)>,
    n: int,
    j: int,
)
    requires
        n <= logs.len(),
        0 <= j < by_time(logs, matches, n).len(),
    ensures
        exists|i: int, k: int|
            0 <= i < n && i < logs.len() && 0 <= k < matches.len() && by_time(logs, matches, n)[j]
                == (logs[i].0, matches[k].0) && #[trigger] in_window(logs[i].1, matches[k]),
    decreases n,
{
    if n > 0 {
        let prev = by_time(logs, matches, n - 1);
        lemma_nearest_range(matches, logs[n - 1].1, matches.len() as int);
        if j < prev.len() {
            lemma_marked_logs_started_inside(logs, matches, n - 1, j);
        } else {
            let k = nearest(matches, logs[n - 1].1, matches.len() as int)->0;
            assert(in_window(logs[n - 1].1, matches[k]));
            assert(by_time(logs, matches, n)[j] == (logs[n - 1].0, matches[k].0));
        }
    }
}


// ---------------------------------------------------------------------------
// A match from the API
// ---------------------------------------------------------------------------

/// The competition a match belongs to.
#[derive(Debug, Clone)]
pub struct CompetitionIn {
    pub id: Option<i64>,
    pub name: Option<String>,
    pub category: Option<String>,
    /// `Highlander`, `6v6`, ...
    pub kind: Option<String>,
}

#[derive(Debug, Clone)]
pub struct DivisionIn {
    pub name: Option<String>,
    pub tier: Option<i64>,
}

/// A player on a match's roster; `id64` is the SteamID64 ETF2L knows them by.
#[derive(Debug, Clone)]
pub struct PlayerIn {
    pub name: Option<String>,
    pub team_id: Option<i64>,
    pub id64: Option<String>,
}

/// An ETF2L match as its API gives it.
#[derive(Debug, Clone)]
pub struct MatchIn {
    pub id: i64,
    /// `(id, name)` of each clan.
    pub clan1: Option<(i64, String)>,
    pub clan2: Option<(i64, String)>,
    pub competition: Option<CompetitionIn>,
    pub division: Option<DivisionIn>,
    pub default_win: bool,
    pub maps: Vec<String>,
    pub r1: Option<i64>,
    pub r2: Option<i64>,
    pub round: Option<String>,
    pub time: Option<i64>,
    pub week: Option<i64>,
    pub players: Vec<PlayerIn>,
}

/// An official as it is stored.
#[derive(Debug, Clone)]
pub struct Etf2lMatchRow {
    pub match_id: i64,
    pub competition_id: Option<i64>,
    pub competition: Option<String>,
    pub comp_type: Option<String>,
    pub category: Option<String>,
    pub division: Option<String>,
    pub tier: Option<i64>,
    pub week: Option<i64>,
    pub round: Option<String>,
    pub time: Option<i64>,
    pub clan1: Option<(i64, String)>,
    pub clan2: Option<(i64, String)>,
    pub r1: Option<i64>,
    pub r2: Option<i64>,
    pub default_win: bool,
    pub maps: Vec<String>,
    /// `(account_id, team_id, name)`; mercs have no team.
    pub roster: Vec<(u32, Option<i64>, Option<String>)>,
}

/// The account a roster entry names, when it has a SteamID that parses.
pub open spec fn roster_id(p: PlayerIn) -> Option<u32> {
    match p.id64 {
        Some(s) => steam_parse(s@),
        None => None,
    }
}

/// The roster from the first `n` players: each with an account, in order.
pub open spec fn roster_spec(ps: Seq<PlayerIn>, n: int) -> Seq<(u32, Option<i64>, Option<String>)>
    decreases n,
{
    if n <= 0 {
        Seq::empty()
    } else {
        let prev = roster_spec(ps, n - 1);
        match roster_id(ps[n - 1]) {
            Some(id) => prev.push((id, ps[n - 1].team_id, ps[n - 1].name)),
            None => prev,
        }
    }
}

fn roster_of(players: Vec<PlayerIn>) -> (r: Vec<(u32, Option<i64>, Option<String>)>)
    ensures
        r@ == roster_spec(players@, players@.len() as int),
{
    let ghost src = players@;
    let total = players.len();
    let mut rest = players;
    let mut out: Vec<(u32, Option<i64>, Option<String>)> = Vec::new();
    let mut n: usize = 0;
    while rest.len() > 0
        invariant
            n + rest@.len() == src.len(),
            src.len() == total,
            rest@ == src.skip(n as int),
            out@ == roster_spec(src, n as int),
        decreases rest@.len(),
    {
        let p = rest.remove(0);
        assert(p == src[n as int]);
        assert(rest@ =~= src.skip(n + 1));
        let id = match &p.id64 {
            Some(s) => match SteamId::parse(s.as_str()) {
                Ok(x) => Some(x.account_id()),
                Err(_) => None,
            },
            None => None,
        };
        if let Some(a) = id {
            out.push((a, p.team_id, p.name));
        }
        n += 1;
    }
    assert(src.skip(n as int) =~= Seq::<PlayerIn>::empty());
    out
}

/// A match as the row the context pass reads: its competition, division,
/// clans, scores and maps, and the roster of players with an account
/// (a player without a SteamID is dropped; a merc keeps no team).
pub fn match_row(m: MatchIn) -> (r: Etf2lMatchRow)
    ensures
        r.match_id == m.id,
        r.competition_id == (match m.competition {
            Some(c) => c.id,
            None => None,
        }),
        r.competition == (match m.competition {
            Some(c) => c.name,
            None => None,
        }),
        r.comp_type == (match m.competition {
            Some(c) => c.kind,
            None => None,
        }),
        r.category == (match m.competition {
            Some(c) => c.category,
            None => None,
        }),
        r.division == (match m.division {
            Some(d) => d.name,
            None => None,
        }),
        r.tier == (match m.division {
            Some(d) => d.tier,
            None => None,
        }),
        r.week == m.week,
        r.round == m.round,
        r.time == m.time,
        r.clan1 == m.clan1,
        r.clan2 == m.clan2,
        r.r1 == m.r1,
        r.r2 == m.r2,
        r.default_win == m.default_win,
        r.maps == m.maps,
        r.roster@ == roster_spec(m.players@, m.players@.len() as int),
{
    let MatchIn { id, clan1, clan2, competition, division, default_win, maps, r1, r2, round, time, week, players } = m;
    let (competition_id, competition, comp_type, category) = match competition {
        Some(c) => (c.id, c.name, c.kind, c.category),
        None => (None, None, None, None),
    };
    let (division, tier) = match division {
        Some(d) => (d.name, d.tier),
        None => (None, None),
    };
    Etf2lMatchRow {
        match_id: id,
        competition_id,
        competition,
        comp_type,
        category,
        division,
        tier,
        week,
        round,
        time,
        clan1,
        clan2,
        r1,
        r2,
        default_win,
        maps,
        roster: roster_of(players),
    }
}


// ---------------------------------------------------------------------------
// What to fetch
// ---------------------------------------------------------------------------

/// A match is refetched while it is younger than this when last fetched:
/// results, scores and default wins settle within days of being played.
pub const SETTLE_S: i64 = 14 * 24 * 3600;

/// Results pages are 20 matches each; this is a guard, not a limit.
pub const MAX_RESULT_PAGES: i64 = 100;

/// The results page after `page`, when there is one: `last` is the last
/// page the response names (this one when it names none).
pub fn next_page(page: i64, last: Option<i64>) -> (r: Option<i64>)
    ensures
        r == (if page >= (match last {
            Some(l) => l,
            None => page,
        }) || page >= MAX_RESULT_PAGES {
            None
        } else {
            Some((page + 1) as i64)
        }),
{
    let last = match last {
        Some(l) => l,
        None => page,
    };
    if page >= last || page >= MAX_RESULT_PAGES {
        None
    } else {
        Some(page + 1)
    }
}

/// The stored copy of match `id`: the last entry for it.
pub open spec fn stored_at(stored: Seq<(i64, i64, Option<i64>)>, id: i64, n: int) -> Option<int>
    decreases n,
{
    if n <= 0 {
        None
    } else if stored[n - 1].0 == id {
        Some(n - 1)
    } else {
        stored_at(stored, id, n - 1)
    }
}

/// Whether match `id` is to be fetched: it is not stored, or its stored copy
/// (fetched at `.1`, played at `.2`) has no time or was fetched before the
/// match could settle.
pub open spec fn wants(stored: Seq<(i64, i64, Option<i64>)>, id: i64) -> bool {
    match stored_at(stored, id, stored.len() as int) {
        None => true,
        Some(k) => match stored[k].2 {
            None => true,
            Some(t) => stored[k].1 - t < SETTLE_S,
        },
    }
}

pub open spec fn to_fetch_spec(wanted: Seq<i64>, stored: Seq<(i64, i64, Option<i64>)>, n: int) -> Seq<i64>
    decreases n,
{
    if n <= 0 {
        Seq::empty()
    } else if wants(stored, wanted[n - 1]) {
        to_fetch_spec(wanted, stored, n - 1).push(wanted[n - 1])
    } else {
        to_fetch_spec(wanted, stored, n - 1)
    }
}

fn wants_in(stored: &[(i64, i64, Option<i64>)], id: i64) -> (b: bool)
    ensures
        b == wants(stored@, id),
{
    let mut k: usize = stored.len();
    while k > 0
        invariant
            k <= stored@.len(),
            stored_at(stored@, id, stored@.len() as int) == stored_at(stored@, id, k as int),
        decreases k,
    {
        let (sid, fetched_at, time) = stored[k - 1];
        if sid == id {
            return match time {
                None => true,
                Some(t) => (fetched_at as i128) - (t as i128) < SETTLE_S as i128,
            };
        }
        k -= 1;
    }
    true
}

/// The matches to fetch, in the order wanted: the results' and trends.tf's
/// match ids, skipping those already stored and settled. `stored` holds
/// each stored match's id, when it was fetched, and when it was played.
pub fn to_fetch(wanted: &[i64], stored: &[(i64, i64, Option<i64>)]) -> (r: Vec<i64>)
    ensures
        r@ == to_fetch_spec(wanted@, stored@, wanted@.len() as int),
{
    let mut out: Vec<i64> = Vec::new();
    let mut i: usize = 0;
    while i < wanted.len()
        invariant
            i <= wanted@.len(),
            out@ == to_fetch_spec(wanted@, stored@, i as int),
        decreases wanted@.len() - i,
    {
        if wants_in(stored, wanted[i]) {
            out.push(wanted[i]);
        }
        i += 1;
    }
    out
}

// ---------------------------------------------------------------------------
// ETF2L responses
// ---------------------------------------------------------------------------

/// A JSON value that is an `i64` number (`Value::as_i64`).
pub open spec fn i64_of(v: Option<Json>) -> Option<i64> {
    match v {
        Some(Json::Number(n)) => Some(n),
        _ => None,
    }
}

fn i64_in(v: Option<&Json>) -> (r: Option<i64>)
    ensures
        r == i64_of(opt_json(v)),
{
    match v {
        Some(Json::Number(n)) => Some(*n),
        _ => None,
    }
}

/// The owner's ETF2L id in a `/player/{steamid64}` response: its
/// `player.id`.
pub open spec fn player_id_spec(j: Json) -> Option<i64> {
    i64_of(get_in(get(j, "player"@), "id"@))
}

/// The ETF2L id a `/player/{steamid64}` response names; `None` when the
/// body is not JSON or has no such id.
pub fn player_id(body: &str) -> (r: Option<i64>)
    ensures
        r == match logs_json(body@) {
            Some(j) => player_id_spec(j),
            None => None,
        },
{
    match read_logs_json(body) {
        Some(j) => match get_field(&j, "player") {
            Some(p) => i64_in(get_field(p, "id")),
            None => None,
        },
        None => None,
    }
}

/// A results entry of a Highlander competition: its `competition.type` is
/// the string `Highlander`.
pub open spec fn is_highlander(r: Json) -> bool {
    str_of(get_in(get(r, "competition"@), "type"@)) == Some("Highlander"@)
}

/// The `result` ids of the first `n` entries that are Highlander and name
/// an id, in order.
pub open spec fn highlander_upto(rs: Seq<Json>, n: int) -> Seq<i64>
    decreases n,
{
    if n <= 0 {
        Seq::empty()
    } else {
        let prev = highlander_upto(rs, n - 1);
        let r = rs[n - 1];
        match i64_of(get(r, "result"@)) {
            Some(id) => if is_highlander(r) {
                prev.push(id)
            } else {
                prev
            },
            None => prev,
        }
    }
}

/// The Highlander result ids in a results page's `data`, in order.
pub open spec fn highlander_ids_spec(j: Json) -> Seq<i64> {
    let rs = items_of(get(j, "data"@));
    highlander_upto(rs, rs.len() as int)
}

/// The last page a results page names, `last_page`.
pub open spec fn last_page_spec(j: Json) -> Option<i64> {
    i64_of(get(j, "last_page"@))
}

fn is_highlander_in(r: &Json) -> (b: bool)
    ensures
        b == is_highlander(*r),
{
    let ty = match get_field(r, "competition") {
        Some(c) => get_field(c, "type"),
        None => None,
    };
    assert(opt_json(ty) == get_in(get(*r, "competition"@), "type"@));
    match ty {
        Some(Json::Str(s)) => {
            let a = crate::text::chars_of(s.as_str());
            let b = crate::text::chars_of("Highlander");
            crate::text::same(a.as_slice(), b.as_slice())
        },
        _ => false,
    }
}

/// A `/player/{id}/results` page: the ids of its Highlander results in
/// order, and the last page it names; `None` when the body is not JSON.
pub fn highlander_results(body: &str) -> (r: Option<(Vec<i64>, Option<i64>)>)
    ensures
        r is None <==> logs_json(body@) is None,
        r matches Some((ids, last)) ==> ids@ == highlander_ids_spec(logs_json(body@)->0) && last
            == last_page_spec(logs_json(body@)->0),
{
    let j = match read_logs_json(body) {
        Some(j) => j,
        None => return None,
    };
    let rs = array_in(get_field(&j, "data"));
    let mut ids: Vec<i64> = Vec::new();
    let mut i: usize = 0;
    while i < rs.len()
        invariant
            i <= rs@.len(),
            rs@ == items_of(get(j, "data"@)),
            ids@ == highlander_upto(rs@, i as int),
        decreases rs@.len() - i,
    {
        let r = &rs[i];
        match i64_in(get_field(r, "result")) {
            Some(id) => if is_highlander_in(r) {
                ids.push(id);
            },
            None => {},
        }
        i += 1;
    }
    Some((ids, i64_in(get_field(&j, "last_page"))))
}

/// The scheduled time of a stored match, `match.time`.
pub open spec fn match_time_spec(j: Json) -> Option<i64> {
    i64_of(get_in(get(j, "match"@), "time"@))
}

/// The scheduled time a stored `/matches/{id}` response names; `None` when
/// it is not JSON or names none.
pub fn match_time(json: &str) -> (r: Option<i64>)
    ensures
        r == match logs_json(json@) {
            Some(j) => match_time_spec(j),
            None => None,
        },
{
    match read_logs_json(json) {
        Some(j) => match get_field(&j, "match") {
            Some(m) => i64_in(get_field(m, "time")),
            None => None,
        },
        None => None,
    }
}

/// Whether a fetched `/matches/{id}` body is a match: JSON with a `match`
/// member.
pub fn is_match_body(body: &str) -> (b: bool)
    ensures
        b == (logs_json(body@) matches Some(j) && get(j, "match"@) is Some),
{
    match read_logs_json(body) {
        Some(j) => get_field(&j, "match").is_some(),
        None => false,
    }
}

} // verus!
