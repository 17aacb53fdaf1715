//! Kills placed in their rounds.
use crate::matchdata::{other_team, NormalizedLog, RoundLine, Team};
use crate::steamid::SteamId;
use crate::text::{chars_of, push_all, push_str, same, string_of};
use vstd::prelude::*;

verus! {

/// One round's span in logs.tf's round-time frame, and its map when known.
#[derive(Debug, Clone)]
pub struct RoundWindow {
    pub start: i64,
    pub length: i64,
    pub map: Option<String>,
}

/// How a pass over the raw logs went.
#[derive(Debug, Clone, Copy, Default, PartialEq, Eq)]
pub struct RawlogSummary {
    pub fetched: usize,
    /// logs.tf had no raw file.
    pub missing: usize,
    pub failed: usize,
    pub kills: usize,
}

pub open spec fn holds(w: RoundWindow, t: int) -> bool {
    w.start <= t <= w.start + w.length
}

/// The first window from `k` on that holds `t`.
pub open spec fn window_at(ws: Seq<RoundWindow>, t: int, k: int) -> Option<int>
    decreases ws.len() - k,
{
    if k < 0 || k >= ws.len() {
        None
    } else if holds(ws[k], t) {
        Some(k)
    } else {
        window_at(ws, t, k + 1)
    }
}

/// The map of the round holding `t`: that of the first window holding it,
/// when it has one.
pub fn map_at(windows: &[RoundWindow], t: i64) -> (r: Option<&str>)
    requires
        forall|i: int|
            0 <= i < windows@.len() ==> i64::MIN <= #[trigger] windows@[i].start + windows@[i].length
                <= i64::MAX,
    ensures
        match window_at(windows@, t as int, 0) {
            Some(k) => match windows@[k].map {
                Some(m) => r matches Some(s) && s@ == m@,
                None => r is None,
            },
            None => r is None,
        },
{
    let mut i: usize = 0;
    while i < windows.len()
        invariant
            i <= windows@.len(),
            forall|i: int|
                0 <= i < windows@.len() ==> i64::MIN <= #[trigger] windows@[i].start
                    + windows@[i].length <= i64::MAX,
            window_at(windows@, t as int, 0) == window_at(windows@, t as int, i as int),
        decreases windows@.len() - i,
    {
        let w = &windows[i];
        assert(i64::MIN <= windows@[i as int].start + windows@[i as int].length <= i64::MAX);
        if t >= w.start && t <= w.start + w.length {
            return match &w.map {
                Some(m) => Some(m.as_str()),
                None => None,
            };
        }
        i += 1;
    }
    None
}


// ---------------------------------------------------------------------------
// The owner's kills and deaths on the round timeline
// ---------------------------------------------------------------------------

/// A kill as stored, read back.
#[derive(Debug, Clone)]
pub struct StoredKill {
    pub at_raw: i64,
    pub live: bool,
    pub killer: u32,
    pub killer_class: Option<String>,
    pub victim: u32,
    pub victim_team: Option<String>,
    pub victim_class: Option<String>,
    pub weapon: String,
    pub custom: Option<String>,
    pub assister: Option<u32>,
}

/// One of the owner's kills or deaths as a marker on a round's timeline.
#[derive(Debug, Clone)]
pub struct KillMarker {
    /// The round it falls in, by its place in the log's rounds.
    pub round: usize,
    /// Seconds into that round.
    pub at_s: i64,
    /// The owner's kill (`my_kill`) rather than the owner's death (`my_death`).
    pub mine: bool,
    /// The team that lost a player: theirs for a kill, ours for a death.
    pub team: Option<Team>,
    /// The victim's name.
    pub player: Option<String>,
    /// The killer's name.
    pub killer: Option<String>,
    /// The other player's class, the kind of kill and the weapon, joined by ` · `.
    pub value: String,
}

pub struct KillMarkerV {
    pub round: int,
    pub at_s: int,
    pub mine: bool,
    pub team: Option<Team>,
    pub player: Option<Seq<char>>,
    pub killer: Option<Seq<char>>,
    pub value: Seq<char>,
}

impl View for KillMarker {
    type V = KillMarkerV;

    open spec fn view(&self) -> KillMarkerV {
        KillMarkerV {
            round: self.round as int,
            at_s: self.at_s as int,
            mine: self.mine,
            team: self.team,
            player: text_opt(self.player),
            killer: text_opt(self.killer),
            value: self.value@,
        }
    }
}

pub open spec fn text_opt(o: Option<String>) -> Option<Seq<char>> {
    match o {
        Some(s) => Some(s@),
        None => None,
    }
}

/// The name the last of the first `n` players with account `a` goes by.
pub open spec fn name_in(players: Seq<(u32, String)>, a: u32, n: int) -> Option<Seq<char>>
    decreases n,
{
    if n <= 0 {
        None
    } else if players[n - 1].0 == a {
        Some(players[n - 1].1@)
    } else {
        name_in(players, a, n - 1)
    }
}

/// Whether a round has a start and a length and its span holds `t`.
pub open spec fn round_holds(r: RoundLine, t: int) -> bool {
    match (r.start_time, r.length_s) {
        (Some(s), Some(len)) => s <= t <= s + len,
        _ => false,
    }
}

/// The first of rounds `k..n` whose span holds `t`.
pub open spec fn round_holding(rounds: Seq<RoundLine>, t: int, k: int, n: int) -> Option<int>
    decreases n - k,
{
    if k < 0 || k >= n || k >= rounds.len() {
        None
    } else if round_holds(rounds[k], t) {
        Some(k)
    } else {
        round_holding(rounds, t, k + 1, n)
    }
}

/// A custom kill of `feign_death`: a Spy who got up again.
pub open spec fn is_feign(custom: Option<String>) -> bool {
    text_opt(custom) == Some("feign_death"@)
}

/// A part of the marker's value with the separator after it.
pub open spec fn lead(part: Option<Seq<char>>) -> Seq<char> {
    match part {
        Some(p) => p + " · "@,
        None => Seq::empty(),
    }
}

/// The other player's class, the kind of kill unless it is a feign, and the
/// weapon, joined by ` · `.
pub open spec fn marker_value(k: StoredKill, mine: bool) -> Seq<char> {
    let class = if mine {
        text_opt(k.victim_class)
    } else {
        text_opt(k.killer_class)
    };
    let custom = if is_feign(k.custom) {
        None
    } else {
        text_opt(k.custom)
    };
    lead(class) + lead(custom) + k.weapon@
}

/// The marker a stored kill gives the owner `me`: a live kill or death of
/// the owner, but no feign the owner "killed", that falls in one of the
/// first `n` rounds.
pub open spec fn marker_spec(
    rounds: Seq<RoundLine>,
    n: int,
    k: StoredKill,
    me: u32,
    players: Seq<(u32, String)>,
    my_team: Option<Team>,
) -> Option<KillMarkerV> {
    if !(k.live && (k.killer == me || k.victim == me)) || (is_feign(k.custom) && k.killer == me) {
        None
    } else {
        match round_holding(rounds, k.at_raw as int, 0, n) {
            None => None,
            Some(i) => {
                let mine = k.killer == me;
                Some(
                    KillMarkerV {
                        round: i,
                        at_s: k.at_raw - rounds[i].start_time->0,
                        mine,
                        team: match my_team {
                            Some(t) => Some(
                                if mine {
                                    other_team(t)
                                } else {
                                    t
                                },
                            ),
                            None => None,
                        },
                        player: name_in(players, k.victim, players.len() as int),
                        killer: name_in(players, k.killer, players.len() as int),
                        value: marker_value(k, mine),
                    },
                )
            },
        }
    }
}

/// The markers of the first `m` kills, in kill order.
pub open spec fn markers_upto(
    rounds: Seq<RoundLine>,
    n: int,
    kills: Seq<StoredKill>,
    me: u32,
    players: Seq<(u32, String)>,
    my_team: Option<Team>,
    m: int,
) -> Seq<KillMarkerV>
    decreases m,
{
    if m <= 0 {
        Seq::empty()
    } else {
        let prev = markers_upto(rounds, n, kills, me, players, my_team, m - 1);
        match marker_spec(rounds, n, kills[m - 1], me, players, my_team) {
            Some(x) => prev.push(x),
            None => prev,
        }
    }
}

/// The owner's markers: none when the owner is unknown; rounds are those
/// the log and the match detail both hold.
pub open spec fn markers_spec(
    log: NormalizedLog,
    detail_rounds: int,
    kills: Seq<StoredKill>,
    me: Option<SteamId>,
    players: Seq<(u32, String)>,
    my_team: Option<Team>,
) -> Seq<KillMarkerV> {
    match me {
        None => Seq::empty(),
        Some(id) => markers_upto(
            log.rounds@,
            if log.rounds@.len() < detail_rounds {
                log.rounds@.len() as int
            } else {
                detail_rounds
            },
            kills,
            id@,
            players,
            my_team,
            kills.len() as int,
        ),
    }
}

fn text_of(o: &Option<String>) -> (r: Option<Vec<char>>)
    ensures
        r matches Some(v) ==> text_opt(*o) == Some(v@),
        r is None ==> o is None,
{
    match o {
        Some(s) => Some(chars_of(s.as_str())),
        None => None,
    }
}

fn feign(custom: &Option<String>) -> (b: bool)
    ensures
        b == is_feign(*custom),
{
    match custom {
        Some(c) => {
            let a = chars_of(c.as_str());
            let f = chars_of("feign_death");
            same(a.as_slice(), f.as_slice())
        },
        None => false,
    }
}

fn name_of(players: &[(u32, String)], a: u32) -> (r: Option<String>)
    ensures
        text_opt(r) == name_in(players@, a, players@.len() as int),
{
    let mut found: Option<String> = None;
    let mut i: usize = 0;
    while i < players.len()
        invariant
            i <= players@.len(),
            text_opt(found) == name_in(players@, a, i as int),
        decreases players@.len() - i,
    {
        if players[i].0 == a {
            found = Some(players[i].1.clone());
        }
        i += 1;
    }
    found
}

fn round_of(rounds: &[RoundLine], n: usize, t: i64) -> (r: Option<usize>)
    requires
        n <= rounds@.len(),
    ensures
        r matches Some(k) ==> round_holding(rounds@, t as int, 0, n as int) == Some(k as int) && k
            < n && round_holds(rounds@[k as int], t as int),
        r is None ==> round_holding(rounds@, t as int, 0, n as int) is None,
{
    let mut k: usize = 0;
    while k < n
        invariant
            n <= rounds@.len(),
            k <= n,
            round_holding(rounds@, t as int, 0, n as int) == round_holding(
                rounds@,
                t as int,
                k as int,
                n as int,
            ),
        decreases n - k,
    {
        let r = &rounds[k];
        match (r.start_time, r.length_s) {
            (Some(s), Some(len)) => {
                if (s as i128) <= (t as i128) && (t as i128) <= (s as i128) + (len as i128) {
                    return Some(k);
                }
            },
            _ => {},
        }
        k += 1;
    }
    None
}

fn value_of(k: &StoredKill, mine: bool) -> (v: String)
    ensures
        v@ == marker_value(*k, mine),
{
    let class = if mine {
        text_of(&k.victim_class)
    } else {
        text_of(&k.killer_class)
    };
    let custom = if feign(&k.custom) {
        None
    } else {
        text_of(&k.custom)
    };
    let mut out: Vec<char> = Vec::new();
    if let Some(c) = &class {
        push_all(&mut out, c.as_slice());
        push_str(&mut out, " · ");
    }
    if let Some(c) = &custom {
        push_all(&mut out, c.as_slice());
        push_str(&mut out, " · ");
    }
    let w = chars_of(k.weapon.as_str());
    push_all(&mut out, w.as_slice());
    proof {
        let cl = if mine {
            text_opt(k.victim_class)
        } else {
            text_opt(k.killer_class)
        };
        let cu = if is_feign(k.custom) {
            None
        } else {
            text_opt(k.custom)
        };
        assert(out@ =~= lead(cl) + lead(cu) + k.weapon@);
    }
    string_of(out.as_slice())
}

/// The owner's own kills and deaths as timeline markers, in kill order,
/// each placed in the first round whose span holds it. `players` are the
/// match's players by account (the last of an account names it) and
/// `detail_rounds` how many rounds the match detail holds.
pub fn enrich(
    log: &NormalizedLog,
    kills: &[StoredKill],
    me: Option<SteamId>,
    players: &[(u32, String)],
    my_team: Option<Team>,
    detail_rounds: usize,
) -> (r: Vec<KillMarker>)
    ensures
        r@.len() == markers_spec(*log, detail_rounds as int, kills@, me, players@, my_team).len(),
        forall|i: int|
            0 <= i < r@.len() ==> #[trigger] r@[i]@ == markers_spec(
                *log,
                detail_rounds as int,
                kills@,
                me,
                players@,
                my_team,
            )[i],
{
    let mut out: Vec<KillMarker> = Vec::new();
    let me = match me {
        Some(m) => m.account_id(),
        None => return out,
    };
    let n: usize = if log.rounds.len() < detail_rounds {
        log.rounds.len()
    } else {
        detail_rounds
    };
    let ghost rs = log.rounds@;
    let ghost want = markers_upto(rs, n as int, kills@, me, players@, my_team, kills@.len() as int);
    let mut j: usize = 0;
    while j < kills.len()
        invariant
            j <= kills@.len(),
            rs == log.rounds@,
            n <= rs.len(),
            out@.len() == markers_upto(rs, n as int, kills@, me, players@, my_team, j as int).len(),
            forall|i: int|
                0 <= i < out@.len() ==> #[trigger] out@[i]@ == markers_upto(
                    rs,
                    n as int,
                    kills@,
                    me,
                    players@,
                    my_team,
                    j as int,
                )[i],
        decreases kills@.len() - j,
    {
        let ghost prev = markers_upto(rs, n as int, kills@, me, players@, my_team, j as int);
        let k = &kills[j];
        let ghost spec_k = marker_spec(rs, n as int, kills@[j as int], me, players@, my_team);
        if k.live && (k.killer == me || k.victim == me) && !(feign(&k.custom) && k.killer == me) {
            match round_of(log.rounds.as_slice(), n, k.at_raw) {
                Some(i) => {
                    let mine = k.killer == me;
                    let start = match log.rounds[i].start_time {
                        Some(s) => s,
                        None => k.at_raw,
                    };
                    let m = KillMarker {
                        round: i,
                        at_s: k.at_raw - start,
                        mine,
                        team: match my_team {
                            Some(t) => Some(
                                if mine {
                                    t.other()
                                } else {
                                    t
                                },
                            ),
                            None => None,
                        },
                        player: name_of(players, k.victim),
                        killer: name_of(players, k.killer),
                        value: value_of(k, mine),
                    };
                    assert(spec_k == Some(m@));
                    out.push(m);
                },
                None => {
                    assert(spec_k is None);
                },
            }
        } else {
            assert(spec_k is None);
        }
        proof {
            assert(out@.len() == markers_upto(rs, n as int, kills@, me, players@, my_team, j + 1).len());
        }
        j += 1;
    }
    out
}


proof fn lemma_round_holding_holds(rounds: Seq<RoundLine>, t: int, k: int, n: int)
    ensures
        round_holding(rounds, t, k, n) matches Some(i) ==> k <= i < n && i < rounds.len() && 0
            <= i && round_holds(rounds[i], t),
    decreases n - k,
{
    if !(k < 0 || k >= n || k >= rounds.len()) && !round_holds(rounds[k], t) {
        lemma_round_holding_holds(rounds, t, k + 1, n);
    }
}

proof fn lemma_markers_upto_inside(
    rounds: Seq<RoundLine>,
    n: int,
    kills: Seq<StoredKill>,
    me: u32,
    players: Seq<(u32, String)>,
    my_team: Option<Team>,
    m: int,
)
    ensures
        forall|i: int|
            0 <= i < markers_upto(rounds, n, kills, me, players, my_team, m).len() ==> {
                let x = #[trigger] markers_upto(rounds, n, kills, me, players, my_team, m)[i];
                &&& 0 <= x.round < n
                &&& x.round < rounds.len()
                &&& rounds[x.round].length_s matches Some(len) && 0 <= x.at_s <= len
            },
    decreases m,
{
    if m > 0 {
        lemma_markers_upto_inside(rounds, n, kills, me, players, my_team, m - 1);
        lemma_round_holding_holds(rounds, kills[m - 1].at_raw as int, 0, n);
    }
}

/// Every marker lies in its round: a round the log and the match detail
/// both hold, at a time between the round's start and its end.
pub proof fn lemma_markers_inside_rounds(
    log: NormalizedLog,
    detail_rounds: int,
    kills: Seq<StoredKill>,
    me: Option<SteamId>,
    players: Seq<(u32, String)>,
    my_team: Option<Team>,
)
    ensures
        forall|i: int|
            0 <= i < markers_spec(log, detail_rounds, kills, me, players, my_team).len() ==> {
                let x = #[trigger] markers_spec(log, detail_rounds, kills, me, players, my_team)[i];
                &&& 0 <= x.round < log.rounds@.len()
                &&& x.round < detail_rounds
                &&& log.rounds@[x.round].length_s matches Some(len) && 0 <= x.at_s <= len
            },
{
    if let Some(id) = me {
        let n = if log.rounds@.len() < detail_rounds {
            log.rounds@.len() as int
        } else {
            detail_rounds
        };
        lemma_markers_upto_inside(log.rounds@, n, kills, id@, players, my_team, kills.len() as int);
    }
}

} // verus!
