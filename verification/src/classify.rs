//! Our own format classifier, for logs trends.tf does not index.
//!
//! It works from class coverage rather than headcount: a Highlander log with
//! a mid-match sub has 19 or more players, but each team still fields nine
//! classes.
use crate::matchdata::{time_sum, ClassLine, Format, NormalizedLog, PlayerLine, Team};
use crate::tfclass::{lineup, TfClass};
use vstd::prelude::*;

verus! {

/// A class counts as fielded once someone played it for this long. Short
/// enough to survive a class swap, long enough to ignore a spawn-room switch.
pub const MIN_CLASS_TIME_S: i64 = 90;

/// A team fielded a class: someone on it played the class long enough.
pub open spec fn fields(players: Seq<PlayerLine>, team: Team, c: TfClass) -> bool {
    exists|p: int, k: int|
        0 <= p < players.len() && players[p].team == team && 0 <= k
            < players[p].classes@.len() && #[trigger] players[p].classes@[k].class == c
            && players[p].classes@[k].time_s >= MIN_CLASS_TIME_S
}

/// How many of the nine classes a team fielded.
pub open spec fn fielded_count(players: Seq<PlayerLine>, team: Team, n: int) -> nat
    decreases n,
{
    if n <= 0 {
        0
    } else {
        fielded_count(players, team, n - 1) + if fields(players, team, lineup()[n - 1]) {
            1nat
        } else {
            0nat
        }
    }
}

pub open spec fn distinct_classes_spec(log: NormalizedLog, team: Team) -> nat {
    fielded_count(log.players@, team, 9)
}

/// The share of the match a player must play to count towards the lineup:
/// two fifths of its length, rounded down.
pub open spec fn core_threshold(duration_s: int) -> int {
    duration_s * 2 / 5
}

/// How many of the first `n` players are on `team` and played at least `threshold`.
pub open spec fn core_count(players: Seq<PlayerLine>, team: Team, threshold: int, n: int) -> nat
    decreases n,
{
    if n <= 0 {
        0
    } else {
        core_count(players, team, threshold, n - 1) + if players[n - 1].team == team && time_sum(
            players[n - 1].classes@,
        ) >= threshold {
            1nat
        } else {
            0nat
        }
    }
}

pub open spec fn core_players_spec(log: NormalizedLog, team: Team) -> nat {
    core_count(log.players@, team, core_threshold(log.duration_s as int), log.players@.len() as int)
}

pub open spec fn min_nat(a: nat, b: nat) -> nat {
    if a <= b {
        a
    } else {
        b
    }
}

/// Highlander when both teams fielded eight or more classes; Prolander when
/// the thinner team had seven core players; Sixes with five or six core
/// players and at most six classes; anything else is Other.
pub open spec fn classify_spec(log: NormalizedLog) -> Format {
    if log.duration_s <= 0 || log.players@.len() == 0 {
        Format::Other
    } else {
        let min_classes = min_nat(
            distinct_classes_spec(log, Team::Red),
            distinct_classes_spec(log, Team::Blue),
        );
        let min_core = min_nat(core_players_spec(log, Team::Red), core_players_spec(log, Team::Blue));
        if min_classes >= 8 {
            Format::Highlander
        } else if min_core == 7 {
            Format::Prolander
        } else if 5 <= min_core <= 6 && min_classes <= 6 {
            Format::Sixes
        } else {
            Format::Other
        }
    }
}

proof fn lemma_all_fielded(players: Seq<PlayerLine>, team: Team, n: int)
    requires
        0 <= n <= 9,
        forall|i: int| 0 <= i < 9 ==> fields(players, team, #[trigger] lineup()[i]),
    ensures
        fielded_count(players, team, n) == n,
    decreases n,
{
    if n > 0 {
        lemma_all_fielded(players, team, n - 1);
    }
}

/// A log with a length and players is Highlander exactly when each team
/// fielded eight or more of the nine classes; nine is more than eight.
pub proof fn lemma_highlander_is_eight_classes_a_side(log: NormalizedLog)
    requires
        log.duration_s > 0,
        log.players@.len() > 0,
    ensures
        classify_spec(log) == Format::Highlander <==> (distinct_classes_spec(log, Team::Red) >= 8
            && distinct_classes_spec(log, Team::Blue) >= 8),
{
}

/// A log with a length where both teams fielded every one of the nine
/// classes is Highlander.
pub proof fn lemma_all_nine_classes_is_highlander(log: NormalizedLog)
    requires
        log.duration_s > 0,
        log.players@.len() > 0,
        forall|c: TfClass| #[trigger] lineup().contains(c) ==> fields(log.players@, Team::Red, c) && fields(
            log.players@,
            Team::Blue,
            c,
        ),
    ensures
        classify_spec(log) == Format::Highlander,
{
    assert forall|i: int| 0 <= i < 9 implies fields(log.players@, Team::Red, #[trigger] lineup()[i]) && fields(
        log.players@,
        Team::Blue,
        lineup()[i],
    ) by {
        assert(lineup().contains(lineup()[i]));
    }
    lemma_all_fielded(log.players@, Team::Red, 9);
    lemma_all_fielded(log.players@, Team::Blue, 9);
}

/// Every player's class time adds up without leaving `i64`.
pub open spec fn times_fit(log: NormalizedLog) -> bool {
    forall|p: int, k: int|
        0 <= p < log.players@.len() && 0 <= k <= log.players@[p].classes@.len() ==> i64::MIN
            <= #[trigger] time_sum(log.players@[p].classes@.take(k)) <= i64::MAX
}

pub fn classify(log: &NormalizedLog) -> (r: Format)
    requires
        log.duration_s > 0 && log.players@.len() > 0 ==> times_fit(*log),
    ensures
        r == classify_spec(*log),
{
    if log.duration_s <= 0 || log.players.len() == 0 {
        return Format::Other;
    }
    let red_classes = distinct_classes(log, Team::Red);
    let blue_classes = distinct_classes(log, Team::Blue);
    let min_classes = if red_classes <= blue_classes {
        red_classes
    } else {
        blue_classes
    };
    let red_core = core_players(log, Team::Red);
    let blue_core = core_players(log, Team::Blue);
    let min_core = if red_core <= blue_core {
        red_core
    } else {
        blue_core
    };
    if min_classes >= 8 {
        Format::Highlander
    } else if min_core == 7 {
        Format::Prolander
    } else if 5 <= min_core && min_core <= 6 && min_classes <= 6 {
        Format::Sixes
    } else {
        Format::Other
    }
}

/// Whether some player on `team` played `c` for at least the minimum time.
fn team_fields(log: &NormalizedLog, team: Team, c: TfClass) -> (b: bool)
    ensures
        b == fields(log.players@, team, c),
{
    let mut p: usize = 0;
    while p < log.players.len()
        invariant
            p <= log.players@.len(),
            forall|q: int, k: int|
                0 <= q < p && log.players@[q].team == team && 0 <= k
                    < log.players@[q].classes@.len() && #[trigger] log.players@[q].classes@[k].class
                    == c ==> log.players@[q].classes@[k].time_s < MIN_CLASS_TIME_S,
        decreases log.players@.len() - p,
    {
        let player = &log.players[p];
        if player.team == team {
            let mut k: usize = 0;
            while k < player.classes.len()
                invariant
                    p < log.players@.len(),
                    *player == log.players@[p as int],
                    player.team == team,
                    k <= player.classes@.len(),
                    forall|q: int, j: int|
                        0 <= q < p && log.players@[q].team == team && 0 <= j
                            < log.players@[q].classes@.len()
                            && #[trigger] log.players@[q].classes@[j].class == c
                            ==> log.players@[q].classes@[j].time_s < MIN_CLASS_TIME_S,
                    forall|j: int|
                        0 <= j < k && #[trigger] player.classes@[j].class == c
                            ==> player.classes@[j].time_s < MIN_CLASS_TIME_S,
                decreases player.classes@.len() - k,
            {
                let line = &player.classes[k];
                if line.class == c && line.time_s >= MIN_CLASS_TIME_S {
                    assert(log.players@[p as int].classes@[k as int].class == c);
                    return true;
                }
                k += 1;
            }
        }
        p += 1;
    }
    false
}

/// How many distinct classes `team` fielded.
pub fn distinct_classes(log: &NormalizedLog, team: Team) -> (r: usize)
    ensures
        r == distinct_classes_spec(*log, team),
        r <= 9,
{
    let all = TfClass::all();
    let mut n: usize = 0;
    let mut i: usize = 0;
    while i < 9
        invariant
            i <= 9,
            all@ == lineup(),
            n == fielded_count(log.players@, team, i as int),
            n <= i,
        decreases 9 - i,
    {
        if team_fields(log, team, all[i]) {
            n += 1;
        }
        i += 1;
    }
    n
}

/// How many players on `team` played at least two fifths of the match.
pub fn core_players(log: &NormalizedLog, team: Team) -> (r: usize)
    requires
        times_fit(*log),
        log.duration_s > 0,
    ensures
        r == core_players_spec(*log, team),
{
    let threshold = log.duration_s / 5 * 2 + log.duration_s % 5 * 2 / 5;
    assert(threshold == core_threshold(log.duration_s as int)) by (nonlinear_arith)
        requires
            log.duration_s > 0,
            threshold == log.duration_s / 5 * 2 + log.duration_s % 5 * 2 / 5,
    ;
    let mut n: usize = 0;
    let mut p: usize = 0;
    while p < log.players.len()
        invariant
            p <= log.players@.len(),
            times_fit(*log),
            threshold == core_threshold(log.duration_s as int),
            n == core_count(log.players@, team, threshold as int, p as int),
            n <= p,
        decreases log.players@.len() - p,
    {
        let player = &log.players[p];
        if player.team == team {
            proof {
                assert forall|k: int| 0 <= k <= player.classes@.len() implies i64::MIN
                    <= #[trigger] time_sum(player.classes@.take(k)) <= i64::MAX by {
                    assert(time_sum(log.players@[p as int].classes@.take(k)) == time_sum(
                        player.classes@.take(k),
                    ));
                }
            }
            if player.total_time() >= threshold {
                n += 1;
            }
        }
        p += 1;
    }
    n
}

} // verus!
