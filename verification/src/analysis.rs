//! The match page's analysis on game time: rounds laid end to end with the
//! gaps between them removed, oldest first. Combined logs list their rounds
//! out of order and can span hours of breaks; game time keeps the timeline
//! about the play.
use crate::mapres::{order_by_start, ord_view, sorted_order};
use crate::matchdata::{longest, NormalizedLog, PlayerLine, RoundLine, Team};
use crate::steamid::{steamid3_text, SteamId};
use crate::rawlog::{kill_counts, Chat, ChatV, Damage, Kill, KillV, HIT_CAP};
use crate::matchdata::{EventView, EventLine};
use crate::fights::{FightStats, Fights, FirstPick, KillTags};
use crate::kills::{map_at, window_at, RoundWindow};
use crate::state::{advantage_spec, best_charge, count_alive, Charge, GameState};
use crate::text::{chars_of, idec, push_decimal, push_signed, same, string_of};
use crate::tfclass::TfClass;
use vstd::prelude::*;

verus! {

/// One timed round on the game clock: its number, its start and length in
/// the log's frame, and where it begins in game seconds.
#[derive(Debug, Clone, Copy, PartialEq, Eq)]
pub struct ClockRound {
    pub round_num: i64,
    pub start: i64,
    pub len: i64,
    pub offset: i128,
}

/// Maps a moment in the log's frame to game time.
#[derive(Debug, Clone)]
pub struct Clock {
    pub rounds: Vec<ClockRound>,
}

/// The rounds with both a start and a length, as (number, start, length),
/// in the log's order.
pub open spec fn timed(rs: Seq<RoundLine>) -> Seq<(i64, i64, i64)>
    decreases rs.len(),
{
    if rs.len() == 0 {
        Seq::empty()
    } else {
        let t = timed(rs.drop_last());
        let r = rs.last();
        match (r.start_time, r.length_s) {
            (Some(s), Some(l)) => t.push((r.round_num, s, l)),
            _ => t,
        }
    }
}

pub open spec fn starts(t: Seq<(i64, i64, i64)>) -> Seq<(i64, i64)> {
    t.map_values(|x: (i64, i64, i64)| (x.0, x.1))
}

/// The lengths of the first `k` rounds in `ord`, added up.
pub open spec fn offset_upto(t: Seq<(i64, i64, i64)>, ord: Seq<int>, k: int) -> int
    decreases k,
{
    if k <= 0 {
        0
    } else {
        offset_upto(t, ord, k - 1) + t[ord[k - 1]].2
    }
}

/// The game clock of a log's rounds: the timed rounds in order of start
/// (rounds that start together in the log's order), each beginning where
/// the ones before it end.
pub open spec fn clock_rows(rs: Seq<RoundLine>) -> Seq<(i64, i64, i64, int)> {
    let t = timed(rs);
    let ord = sorted_order(starts(t), t.len() as int);
    Seq::new(
        ord.len(),
        |k: int| (t[ord[k]].0, t[ord[k]].1, t[ord[k]].2, offset_upto(t, ord, k)),
    )
}

pub open spec fn row_view(r: ClockRound) -> (i64, i64, i64, int) {
    (r.round_num, r.start, r.len, r.offset as int)
}

pub open spec fn rows_view(v: Seq<ClockRound>) -> Seq<(i64, i64, i64, int)> {
    v.map_values(|r: ClockRound| row_view(r))
}

/// The first round from `k` on whose span (ends included) holds `t`.
pub open spec fn holding_from(rows: Seq<(i64, i64, i64, int)>, t: int, k: int) -> Option<int>
    decreases rows.len() - k,
{
    if k < 0 || k >= rows.len() {
        None
    } else if rows[k].1 <= t <= rows[k].1 + rows[k].2 {
        Some(k)
    } else {
        holding_from(rows, t, k + 1)
    }
}

/// `(game seconds, round number)` of a moment, or `None` outside every
/// round.
pub open spec fn game_spec(rows: Seq<(i64, i64, i64, int)>, t: int) -> Option<(int, i64)> {
    match holding_from(rows, t, 0) {
        Some(k) => Some((rows[k].3 + (t - rows[k].1), rows[k].0)),
        None => None,
    }
}

/// The game clock's length: where its last round ends.
pub open spec fn duration_spec(rows: Seq<(i64, i64, i64, int)>) -> int {
    if rows.len() == 0 {
        0
    } else {
        rows.last().3 + rows.last().2
    }
}

/// Rounds lie end to end on the game clock, oldest first: the first
/// starts at zero, each of the others where the one before it ends, and
/// none started before the one before it.
pub proof fn lemma_end_to_end(rs: Seq<RoundLine>)
    ensures
        clock_rows(rs).len() > 0 ==> clock_rows(rs)[0].3 == 0,
        forall|k: int|
            0 < k < clock_rows(rs).len() ==> #[trigger] clock_rows(rs)[k].3 == clock_rows(rs)[k - 1].3 + clock_rows(
                rs,
            )[k - 1].2,
        forall|k: int| 0 < k < clock_rows(rs).len() ==> clock_rows(rs)[k - 1].1 <= #[trigger] clock_rows(rs)[k].1,
{
    let t = timed(rs);
    crate::mapres::lemma_sorted_order(starts(t), t.len() as int);
    let ord = sorted_order(starts(t), t.len() as int);
    assert forall|k: int| 0 < k < clock_rows(rs).len() implies clock_rows(rs)[k - 1].1 <= #[trigger] clock_rows(rs)[k].1 by {
        assert(starts(t)[ord[k - 1]].1 <= starts(t)[ord[k]].1);
        assert(0 <= ord[k - 1] < t.len());
        assert(0 <= ord[k] < t.len());
    }
}

/// What [`Clock::new`] guarantees of the offsets: the `k`th starts within
/// `k` times the largest `i64` of zero.
pub open spec fn clock_ok(v: Seq<ClockRound>) -> bool {
    &&& v.len() <= usize::MAX
    &&& forall|k: int|
        0 <= k < v.len() ==> -k * 0x8000_0000_0000_0000 <= (#[trigger] v[k]).offset <= k
            * 0x8000_0000_0000_0000
}

pub proof fn lemma_offset_bound(t: Seq<(i64, i64, i64)>, ord: Seq<int>, k: int)
    requires
        0 <= k <= ord.len(),
        forall|q: int| 0 <= q < ord.len() ==> 0 <= #[trigger] ord[q] < t.len(),
    ensures
        -k * 0x8000_0000_0000_0000 <= offset_upto(t, ord, k) <= k * 0x8000_0000_0000_0000,
    decreases k,
{
    if k > 0 {
        lemma_offset_bound(t, ord, k - 1);
        assert(0 <= ord[k - 1] < t.len());
    }
}

fn timed_of(rs: &[RoundLine]) -> (r: Vec<(i64, i64, i64)>)
    ensures
        r@ == timed(rs@),
{
    let mut out: Vec<(i64, i64, i64)> = Vec::new();
    let mut i: usize = 0;
    while i < rs.len()
        invariant
            i <= rs@.len(),
            out@ == timed(rs@.take(i as int)),
        decreases rs@.len() - i,
    {
        assert(rs@.take(i + 1).drop_last() =~= rs@.take(i as int));
        let r = &rs[i];
        match (r.start_time, r.length_s) {
            (Some(s), Some(l)) => out.push((r.round_num, s, l)),
            _ => {},
        }
        i += 1;
    }
    assert(rs@.take(rs@.len() as int) =~= rs@);
    out
}

impl Clock {
    /// The game clock of a log: its timed rounds oldest first, laid end to
    /// end.
    pub fn new(log: &NormalizedLog) -> (c: Clock)
        ensures
            rows_view(c.rounds@) == clock_rows(log.rounds@),
            clock_ok(c.rounds@),
    {
        let t = timed_of(log.rounds.as_slice());
        let mut pairs: Vec<(i64, i64)> = Vec::new();
        let mut i: usize = 0;
        while i < t.len()
            invariant
                i <= t@.len(),
                pairs@ == starts(t@).take(i as int),
            decreases t@.len() - i,
        {
            pairs.push((t[i].0, t[i].1));
            assert(starts(t@).take(i + 1) =~= starts(t@).take(i as int).push(starts(t@)[i as int]));
            i += 1;
        }
        assert(starts(t@).take(t@.len() as int) =~= starts(t@));
        let ord = order_by_start(pairs.as_slice());
        let ghost ov = ord_view(ord@);
        let ghost want = clock_rows(log.rounds@);
        assert(ov.len() == ord@.len());
        assert forall|q: int| 0 <= q < ov.len() implies 0 <= #[trigger] ov[q] < t@.len() by {
            assert(ov[q] == ord@[q] as int);
        }
        let mut rows: Vec<ClockRound> = Vec::new();
        let mut offset: i128 = 0;
        let mut k: usize = 0;
        while k < ord.len()
            invariant
                k <= ord@.len(),
                t@ == timed(log.rounds@),
                ov == ord_view(ord@),
                ov == sorted_order(starts(t@), t@.len() as int),
                ov.len() == ord@.len(),
                ord@.len() == t@.len(),
                forall|q: int| 0 <= q < ov.len() ==> 0 <= #[trigger] ov[q] < t@.len(),
                forall|q: int| 0 <= q < ord@.len() ==> #[trigger] ord@[q] < t@.len(),
                want == clock_rows(log.rounds@),
                offset == offset_upto(t@, ov, k as int),
                rows_view(rows@) == want.take(k as int),
                rows@.len() == k,
                forall|q: int|
                    0 <= q < rows@.len() ==> -q * 0x8000_0000_0000_0000 <= (#[trigger] rows@[q]).offset
                        <= q * 0x8000_0000_0000_0000,
            decreases ord@.len() - k,
        {
            let j = ord[k];
            assert(ov[k as int] == j as int);
            let (n, s, l) = t[j];
            proof {
                lemma_offset_bound(t@, ov, k as int);
            }
            let ghost before = rows@;
            rows.push(ClockRound { round_num: n, start: s, len: l, offset });
            assert forall|q: int|
                0 <= q < rows@.len() implies -q * 0x8000_0000_0000_0000 <= (#[trigger] rows@[q]).offset
                    <= q * 0x8000_0000_0000_0000 by {
                if q < k {
                    assert(rows@[q] == before[q]);
                }
            }
            assert(rows_view(rows@) =~= want.take(k + 1)) by {
                assert(want.take(k + 1) =~= want.take(k as int).push(want[k as int]));
            }
            proof {
                lemma_offset_bound(t@, ov, k + 1);
                assert((k + 1) * 0x8000_0000_0000_0000 <= 0xFFFF_FFFF_FFFF_FFFF * 0x8000_0000_0000_0000)
                    by (nonlinear_arith)
                    requires
                        k + 1 <= 0xFFFF_FFFF_FFFF_FFFF,
                ;
            }
            offset = offset + l as i128;
            k += 1;
        }
        assert(want.take(ord@.len() as int) =~= want);
        Clock { rounds: rows }
    }

    /// `(game seconds, round number)` of a moment in the log's frame, or
    /// `None` outside every round.
    pub fn game(&self, t: i64) -> (r: Option<(i128, i64)>)
        requires
            clock_ok(self.rounds@),
        ensures
            match game_spec(rows_view(self.rounds@), t as int) {
                Some((g, n)) => r == Some((g as i128, n)),
                None => r is None,
            },
            r matches Some((g, n)) ==> game_spec(rows_view(self.rounds@), t as int) == Some((g as int, n)),
    {
        let ghost rows = rows_view(self.rounds@);
        let mut k: usize = 0;
        while k < self.rounds.len()
            invariant
                k <= self.rounds@.len(),
                clock_ok(self.rounds@),
                rows == rows_view(self.rounds@),
                holding_from(rows, t as int, 0) == holding_from(rows, t as int, k as int),
            decreases self.rounds@.len() - k,
        {
            let r = self.rounds[k];
            assert(rows[k as int] == row_view(r));
            assert(-k * 0x8000_0000_0000_0000 <= r.offset <= k * 0x8000_0000_0000_0000);
            assert(k * 0x8000_0000_0000_0000 <= 0xFFFF_FFFF_FFFF_FFFE * 0x8000_0000_0000_0000)
                by (nonlinear_arith)
                requires
                    k <= 0xFFFF_FFFF_FFFF_FFFE,
            ;
            if r.start <= t && (t as i128) <= r.start as i128 + r.len as i128 {
                return Some((r.offset + (t as i128 - r.start as i128), r.round_num));
            }
            k += 1;
        }
        None
    }

    /// Where the game clock ends, in game seconds.
    pub fn duration(&self) -> (d: i128)
        requires
            clock_ok(self.rounds@),
        ensures
            d == duration_spec(rows_view(self.rounds@)),
    {
        if self.rounds.len() == 0 {
            0
        } else {
            let k = self.rounds.len() - 1;
            let r = self.rounds[k];
            assert(-k * 0x8000_0000_0000_0000 <= r.offset <= k * 0x8000_0000_0000_0000);
            assert(k * 0x8000_0000_0000_0000 <= 0xFFFF_FFFF_FFFF_FFFE * 0x8000_0000_0000_0000)
                by (nonlinear_arith)
                requires
                    k <= 0xFFFF_FFFF_FFFF_FFFE,
            ;
            r.offset + r.len as i128
        }
    }
}

// ---------------------------------------------------------------------------
// Killstreaks
// ---------------------------------------------------------------------------

/// A killstreak is this many kills without dying.
pub const STREAK_MIN: usize = 3;

/// A run of kills without dying: the player, and the places of the kills in
/// the kill list, in order.
#[derive(Debug, Clone, PartialEq, Eq)]
pub struct Streak {
    pub player: u32,
    pub kills: Vec<usize>,
}

pub open spec fn streak_view(s: Streak) -> (u32, Seq<int>) {
    (s.player, s.kills@.map_values(|k: usize| k as int))
}

pub open spec fn streaks_view(v: Seq<Streak>) -> Seq<(u32, Seq<int>)> {
    v.map_values(|s: Streak| streak_view(s))
}

/// `p`'s kills since `p` last died, after the first `j` kills
/// (`(killer, victim)`, in time order): a death ends the run before the
/// kill that caused it is counted.
pub open spec fn open_run(ks: Seq<(u32, u32)>, p: u32, j: int) -> Seq<int>
    decreases j,
{
    if j <= 0 {
        Seq::empty()
    } else {
        let prev = open_run(ks, p, j - 1);
        let k = ks[j - 1];
        let kept = if k.1 == p {
            Seq::empty()
        } else {
            prev
        };
        if k.0 == p {
            kept.push(j - 1)
        } else {
            kept
        }
    }
}

/// The runs of at least [`STREAK_MIN`] kills that a death ended within the
/// first `j` kills, in the order of those deaths.
pub open spec fn ended_runs(ks: Seq<(u32, u32)>, j: int) -> Seq<(u32, Seq<int>)>
    decreases j,
{
    if j <= 0 {
        Seq::empty()
    } else {
        let e = ended_runs(ks, j - 1);
        let v = ks[j - 1].1;
        let run = open_run(ks, v, j - 1);
        if run.len() >= 3 {
            e.push((v, run))
        } else {
            e
        }
    }
}

/// The runs of at least [`STREAK_MIN`] kills still open at the end whose
/// last kill is among the first `i`, in the order of those last kills.
pub open spec fn open_at_end(ks: Seq<(u32, u32)>, i: int) -> Seq<(u32, Seq<int>)>
    decreases i,
{
    if i <= 0 {
        Seq::empty()
    } else {
        let e = open_at_end(ks, i - 1);
        let p = ks[i - 1].0;
        let run = open_run(ks, p, ks.len() as int);
        if run.len() >= 3 && run.last() == i - 1 {
            e.push((p, run))
        } else {
            e
        }
    }
}

/// Every killstreak: those a death ended, in the order of the deaths, then
/// those the log's end ended, in the order of their last kills.
pub open spec fn streaks_spec(ks: Seq<(u32, u32)>) -> Seq<(u32, Seq<int>)> {
    ended_runs(ks, ks.len() as int) + open_at_end(ks, ks.len() as int)
}

pub open spec fn runs_view(v: Seq<(u32, Vec<usize>)>) -> Seq<(u32, Seq<int>)> {
    v.map_values(|e: (u32, Vec<usize>)| (e.0, e.1@.map_values(|k: usize| k as int)))
}

/// The open run recorded for `p` in `v` (the first entry for `p`), or none.
pub open spec fn run_in(v: Seq<(u32, Seq<int>)>, p: u32) -> Seq<int>
    decreases v.len(),
{
    if v.len() == 0 {
        Seq::empty()
    } else if v[0].0 == p {
        v[0].1
    } else {
        run_in(v.drop_first(), p)
    }
}

pub open spec fn keys_unique(v: Seq<(u32, Seq<int>)>) -> bool {
    forall|a: int, b: int| 0 <= a < b < v.len() ==> v[a].0 != v[b].0
}

pub proof fn lemma_run_in(v: Seq<(u32, Seq<int>)>, p: u32, a: int)
    requires
        keys_unique(v),
        0 <= a < v.len(),
    ensures
        run_in(v, v[a].0) == v[a].1,
    decreases v.len(),
{
    if a > 0 {
        assert(v[0].0 != v[a].0);
        assert(keys_unique(v.drop_first())) by {
            assert forall|x: int, y: int| 0 <= x < y < v.drop_first().len() implies v.drop_first()[x].0
                != v.drop_first()[y].0 by {
                assert(v.drop_first()[x] == v[x + 1]);
                assert(v.drop_first()[y] == v[y + 1]);
            }
        }
        lemma_run_in(v.drop_first(), p, a - 1);
    }
}

pub proof fn lemma_run_absent(v: Seq<(u32, Seq<int>)>, p: u32)
    requires
        forall|a: int| 0 <= a < v.len() ==> (#[trigger] v[a]).0 != p,
    ensures
        run_in(v, p) == Seq::<int>::empty(),
    decreases v.len(),
{
    if v.len() > 0 {
        assert(v[0].0 != p);
        assert forall|a: int| 0 <= a < v.drop_first().len() implies (#[trigger] v.drop_first()[a]).0 != p by {
            assert(v.drop_first()[a] == v[a + 1]);
        }
        lemma_run_absent(v.drop_first(), p);
    }
}

/// The entry of `p` in the open runs.
fn entry_of(opens: &Vec<(u32, Vec<usize>)>, p: u32) -> (r: Option<usize>)
    requires
        keys_unique(runs_view(opens@)),
    ensures
        r matches Some(a) ==> a < opens@.len() && opens@[a as int].0 == p,
        r is None ==> forall|a: int| 0 <= a < opens@.len() ==> (#[trigger] opens@[a]).0 != p,
{
    let mut a: usize = 0;
    while a < opens.len()
        invariant
            a <= opens@.len(),
            forall|b: int| 0 <= b < a ==> (#[trigger] opens@[b]).0 != p,
        decreases opens@.len() - a,
    {
        if opens[a].0 == p {
            return Some(a);
        }
        a += 1;
    }
    None
}

fn copy_run(v: &Vec<usize>) -> (r: Vec<usize>)
    ensures
        r@ == v@,
{
    let mut out: Vec<usize> = Vec::new();
    let mut i: usize = 0;
    while i < v.len()
        invariant
            i <= v@.len(),
            out@ == v@.take(i as int),
        decreases v@.len() - i,
    {
        out.push(v[i]);
        assert(v@.take(i + 1) =~= v@.take(i as int).push(v@[i as int]));
        i += 1;
    }
    assert(v@.take(v@.len() as int) =~= v@);
    out
}

/// The killstreaks in a list of kills (`(killer, victim)` account ids, in
/// time order): runs of [`STREAK_MIN`] or more kills without dying.
pub fn streaks(ks: &[(u32, u32)]) -> (r: Vec<Streak>)
    ensures
        streaks_view(r@) == streaks_spec(ks@),
{
    let mut out: Vec<Streak> = Vec::new();
    let mut opens: Vec<(u32, Vec<usize>)> = Vec::new();
    let mut j: usize = 0;
    while j < ks.len()
        invariant
            j <= ks@.len(),
            keys_unique(runs_view(opens@)),
            forall|p: u32| #[trigger] run_in(runs_view(opens@), p) == open_run(ks@, p, j as int),
            streaks_view(out@) == ended_runs(ks@, j as int),
        decreases ks@.len() - j,
    {
        let (killer, victim) = ks[j];
        let ghost before = runs_view(opens@);
        assert(run_in(before, victim) == open_run(ks@, victim, j as int));
        // The victim's run ends.
        match entry_of(&opens, victim) {
            Some(a) => {
                proof {
                    lemma_run_in(before, victim, a as int);
                }
                if opens[a].1.len() >= STREAK_MIN {
                    let run = copy_run(&opens[a].1);
                    let ghost e = streaks_view(out@);
                    out.push(Streak { player: victim, kills: run });
                    assert(streaks_view(out@) =~= e.push(before[a as int]));
                }
                let ghost mid = opens@;
                opens.set(a, (victim, Vec::new()));
                let ghost now = runs_view(opens@);
                assert forall|x: int| 0 <= x < now.len() && x != a implies #[trigger] now[x] == before[x] by {
                    assert(opens@[x] == mid[x]);
                }
                assert(now[a as int].1 =~= Seq::<int>::empty());
                assert(keys_unique(now)) by {
                    assert forall|x: int, y: int| 0 <= x < y < now.len() implies now[x].0 != now[y].0 by {
                        assert(before[x].0 != before[y].0);
                        assert(now[x].0 == before[x].0);
                        assert(now[y].0 == before[y].0);
                    }
                }
                assert forall|p: u32| #[trigger] run_in(now, p) == (if p == victim {
                    Seq::<int>::empty()
                } else {
                    run_in(before, p)
                }) by {
                    if p == victim {
                        lemma_run_in(now, p, a as int);
                    } else {
                        match entry_of_spec(before, p) {
                            Some(b) => {
                                lemma_run_in(before, p, b);
                                assert(now[b] == before[b]);
                                lemma_run_in(now, p, b);
                            },
                            None => {
                                lemma_run_absent(before, p);
                                assert forall|x: int| 0 <= x < now.len() implies (#[trigger] now[x]).0 != p by {
                                    if x != a {
                                        assert(now[x] == before[x]);
                                    }
                                }
                                lemma_run_absent(now, p);
                            },
                        }
                    }
                }
            },
            None => {
                proof {
                    lemma_run_absent(before, victim);
                }
            },
        }
        let ghost closed = runs_view(opens@);
        assert forall|p: u32| #[trigger] run_in(closed, p) == (if p == victim {
            Seq::<int>::empty()
        } else {
            open_run(ks@, p, j as int)
        }) by {
            assert(run_in(before, p) == open_run(ks@, p, j as int));
        }
        assert(streaks_view(out@) == ended_runs(ks@, j + 1));
        // The killer's run goes on.
        match entry_of(&opens, killer) {
            Some(a) => {
                let mut run = copy_run(&opens[a].1);
                run.push(j);
                let ghost mid = opens@;
                opens.set(a, (killer, run));
                let ghost now = runs_view(opens@);
                assert forall|x: int| 0 <= x < now.len() && x != a implies #[trigger] now[x] == closed[x] by {
                    assert(opens@[x] == mid[x]);
                }
                assert(now[a as int].1 =~= closed[a as int].1.push(j as int));
                assert(keys_unique(now)) by {
                    assert forall|x: int, y: int| 0 <= x < y < now.len() implies now[x].0 != now[y].0 by {
                        assert(closed[x].0 != closed[y].0);
                        assert(now[x].0 == closed[x].0);
                        assert(now[y].0 == closed[y].0);
                    }
                }
                assert forall|p: u32| #[trigger] run_in(now, p) == (if p == killer {
                    run_in(closed, p).push(j as int)
                } else {
                    run_in(closed, p)
                }) by {
                    if p == killer {
                        lemma_run_in(closed, p, a as int);
                        lemma_run_in(now, p, a as int);
                    } else {
                        match entry_of_spec(closed, p) {
                            Some(b) => {
                                lemma_run_in(closed, p, b);
                                assert(now[b] == closed[b]);
                                lemma_run_in(now, p, b);
                            },
                            None => {
                                lemma_run_absent(closed, p);
                                assert forall|x: int| 0 <= x < now.len() implies (#[trigger] now[x]).0 != p by {
                                    if x != a {
                                        assert(now[x] == closed[x]);
                                    }
                                }
                                lemma_run_absent(now, p);
                            },
                        }
                    }
                }
            },
            None => {
                let mut run: Vec<usize> = Vec::new();
                run.push(j);
                opens.push((killer, run));
                let ghost now = runs_view(opens@);
                let ghost last = closed.len() as int;
                assert forall|x: int| 0 <= x < last implies #[trigger] now[x] == closed[x] by {}
                assert(now[last].0 == killer);
                assert(now[last].1 =~= seq![j as int]);
                proof {
                    lemma_run_absent(closed, killer);
                }
                assert(keys_unique(now)) by {
                    assert forall|x: int, y: int| 0 <= x < y < now.len() implies now[x].0 != now[y].0 by {
                        if y < last {
                            assert(closed[x].0 != closed[y].0);
                        } else {
                            assert(now[x] == closed[x]);
                        }
                    }
                }
                assert forall|p: u32| #[trigger] run_in(now, p) == (if p == killer {
                    run_in(closed, p).push(j as int)
                } else {
                    run_in(closed, p)
                }) by {
                    if p == killer {
                        lemma_run_in(now, p, last);
                        assert(Seq::<int>::empty().push(j as int) =~= seq![j as int]);
                    } else {
                        match entry_of_spec(closed, p) {
                            Some(b) => {
                                lemma_run_in(closed, p, b);
                                assert(now[b] == closed[b]);
                                lemma_run_in(now, p, b);
                            },
                            None => {
                                lemma_run_absent(closed, p);
                                assert forall|x: int| 0 <= x < now.len() implies (#[trigger] now[x]).0 != p by {
                                    if x < last {
                                        assert(now[x] == closed[x]);
                                    }
                                }
                                lemma_run_absent(now, p);
                            },
                        }
                    }
                }
            },
        }
        assert forall|p: u32| #[trigger] run_in(runs_view(opens@), p) == open_run(ks@, p, j + 1) by {
            assert(run_in(closed, p) == (if p == victim {
                Seq::<int>::empty()
            } else {
                open_run(ks@, p, j as int)
            }));
        }
        j += 1;
    }
    // The runs the end of the log closes, in the order of their last kills.
    let n = ks.len();
    let mut i: usize = 0;
    while i < n
        invariant
            n == ks@.len(),
            i <= n,
            keys_unique(runs_view(opens@)),
            forall|p: u32| #[trigger] run_in(runs_view(opens@), p) == open_run(ks@, p, n as int),
            streaks_view(out@) == ended_runs(ks@, n as int) + open_at_end(ks@, i as int),
        decreases n - i,
    {
        let p = ks[i].0;
        let ghost run = open_run(ks@, p, n as int);
        match entry_of(&opens, p) {
            Some(a) => {
                proof {
                    lemma_run_in(runs_view(opens@), p, a as int);
                }
                let l = opens[a].1.len();
                if l >= STREAK_MIN && opens[a].1[l - 1] == i {
                    let copy = copy_run(&opens[a].1);
                    let ghost e = streaks_view(out@);
                    out.push(Streak { player: p, kills: copy });
                    assert(streaks_view(out@) =~= e.push((p, run)));
                }
            },
            None => {
                proof {
                    lemma_run_absent(runs_view(opens@), p);
                }
            },
        }
        i += 1;
    }
    out
}

/// The first entry for `p`, as a spec.
pub open spec fn entry_of_spec(v: Seq<(u32, Seq<int>)>, p: u32) -> Option<int> {
    if exists|a: int| 0 <= a < v.len() && v[a].0 == p {
        Some(choose|a: int| 0 <= a < v.len() && v[a].0 == p)
    } else {
        None
    }
}

// ---------------------------------------------------------------------------
// Map segments on game time
// ---------------------------------------------------------------------------

/// A map of a combined log, as stored: its first and last round and the
/// rounds each side won on it.
#[derive(Debug, Clone)]
pub struct SegmentIn {
    pub map: Option<String>,
    pub first_round: i64,
    pub last_round: i64,
    pub red_wins: i64,
    pub blue_wins: i64,
}

/// A map on the game clock: its rounds in play order and the game seconds
/// it spans.
#[derive(Debug, Clone)]
pub struct MapSegment {
    pub map: Option<String>,
    pub first_round: i64,
    pub last_round: i64,
    pub rounds: Vec<i64>,
    pub start_s: i128,
    pub end_s: i128,
    pub red_wins: i64,
    pub blue_wins: i64,
}

pub open spec fn text_of(o: Option<String>) -> Option<Seq<char>> {
    match o {
        Some(s) => Some(s@),
        None => None,
    }
}

/// A segment as plain values: map, first and last round, rounds, start,
/// end, and the two win counts.
pub type SegmentV = (Option<Seq<char>>, i64, i64, Seq<i64>, int, int, i64, i64);

pub open spec fn segment_view(m: MapSegment) -> SegmentV {
    (
        text_of(m.map),
        m.first_round,
        m.last_round,
        m.rounds@,
        m.start_s as int,
        m.end_s as int,
        m.red_wins,
        m.blue_wins,
    )
}

pub open spec fn segments_view(v: Seq<MapSegment>) -> Seq<SegmentV> {
    v.map_values(|m: MapSegment| segment_view(m))
}

/// The place of round `n` on the clock, from `k` on.
pub open spec fn place_from(rows: Seq<(i64, i64, i64, int)>, n: i64, k: int) -> Option<int>
    decreases rows.len() - k,
{
    if k < 0 || k >= rows.len() {
        None
    } else if rows[k].0 == n {
        Some(k)
    } else {
        place_from(rows, n, k + 1)
    }
}

/// The round numbers in play order.
pub open spec fn play_order(rows: Seq<(i64, i64, i64, int)>) -> Seq<i64> {
    rows.map_values(|r: (i64, i64, i64, int)| r.0)
}

/// The rounds from `first` to `last` in play order; just `first` when
/// either is not on the clock or `last` comes before `first`.
pub open spec fn between(rows: Seq<(i64, i64, i64, int)>, first: i64, last: i64) -> Seq<i64> {
    match (place_from(rows, first, 0), place_from(rows, last, 0)) {
        (Some(a), Some(b)) => if a <= b {
            play_order(rows).subrange(a, b + 1)
        } else {
            seq![first]
        },
        _ => seq![first],
    }
}

pub open spec fn segment_spec(rows: Seq<(i64, i64, i64, int)>, s: SegmentIn) -> SegmentV {
    (
        text_of(s.map),
        s.first_round,
        s.last_round,
        between(rows, s.first_round, s.last_round),
        match place_from(rows, s.first_round, 0) {
            Some(a) => rows[a].3,
            None => 0,
        },
        match place_from(rows, s.last_round, 0) {
            Some(b) => rows[b].3 + rows[b].2,
            None => duration_spec(rows),
        },
        s.red_wins,
        s.blue_wins,
    )
}

/// The maps of a log on the game clock: one per stored segment, or, when
/// none is stored, the log's own map over the whole clock.
pub open spec fn map_segments_spec(rows: Seq<(i64, i64, i64, int)>, segs: Seq<SegmentIn>, map: Option<Seq<char>>) -> Seq<SegmentV> {
    if segs.len() == 0 {
        seq![
            (
                map,
                if rows.len() > 0 {
                    rows[0].0
                } else {
                    1
                },
                if rows.len() > 0 {
                    rows.last().0
                } else {
                    1
                },
                play_order(rows),
                0int,
                duration_spec(rows),
                0i64,
                0i64,
            ),
        ]
    } else {
        segs.map_values(|s: SegmentIn| segment_spec(rows, s))
    }
}

fn copy_text(o: &Option<String>) -> (r: Option<String>)
    ensures
        text_of(r) == text_of(*o),
{
    match o {
        Some(s) => Some(crate::text::string_of(crate::text::chars_of(s.as_str()).as_slice())),
        None => None,
    }
}

impl Clock {
    fn place(&self, n: i64) -> (r: Option<usize>)
        ensures
            match place_from(rows_view(self.rounds@), n, 0) {
                Some(a) => r == Some(a as usize),
                None => r is None,
            },
            r matches Some(a) ==> a < self.rounds@.len() && place_from(rows_view(self.rounds@), n, 0)
                == Some(a as int),
    {
        let ghost rows = rows_view(self.rounds@);
        let mut k: usize = 0;
        while k < self.rounds.len()
            invariant
                k <= self.rounds@.len(),
                rows == rows_view(self.rounds@),
                place_from(rows, n, 0) == place_from(rows, n, k as int),
            decreases self.rounds@.len() - k,
        {
            if self.rounds[k].round_num == n {
                return Some(k);
            }
            k += 1;
        }
        None
    }

    /// The round numbers from place `a` to place `b`, in play order.
    fn order_between(&self, a: usize, b: usize) -> (r: Vec<i64>)
        requires
            a <= b < self.rounds@.len(),
        ensures
            r@ == play_order(rows_view(self.rounds@)).subrange(a as int, b + 1),
    {
        let ghost order = play_order(rows_view(self.rounds@));
        let mut out: Vec<i64> = Vec::new();
        let mut k: usize = a;
        while k <= b
            invariant
                a <= k <= b + 1,
                b < self.rounds.len(),
                order == play_order(rows_view(self.rounds@)),
                out@ == order.subrange(a as int, k as int),
            decreases b + 1 - k,
        {
            out.push(self.rounds[k].round_num);
            assert(order.subrange(a as int, k + 1) =~= order.subrange(a as int, k as int).push(order[k as int]));
            k += 1;
        }
        out
    }

    /// The maps of a log on this clock: one per stored segment, or, when
    /// none is stored, the log's map over the whole clock.
    pub fn map_segments(&self, segments: &[SegmentIn], map: &Option<String>) -> (r: Vec<MapSegment>)
        requires
            clock_ok(self.rounds@),
        ensures
            segments_view(r@) == map_segments_spec(rows_view(self.rounds@), segments@, text_of(*map)),
    {
        let ghost rows = rows_view(self.rounds@);
        let n = self.rounds.len();
        let duration = self.duration();
        if segments.len() == 0 {
            let all = if n == 0 {
                Vec::new()
            } else {
                self.order_between(0, n - 1)
            };
            assert(all@ =~= play_order(rows));
            let seg = MapSegment {
                map: copy_text(map),
                first_round: if n > 0 {
                    self.rounds[0].round_num
                } else {
                    1
                },
                last_round: if n > 0 {
                    self.rounds[n - 1].round_num
                } else {
                    1
                },
                rounds: all,
                start_s: 0,
                end_s: duration,
                red_wins: 0,
                blue_wins: 0,
            };
            let mut out: Vec<MapSegment> = Vec::new();
            out.push(seg);
            assert(segments_view(out@) =~= map_segments_spec(rows, segments@, text_of(*map)));
            return out;
        }
        let mut out: Vec<MapSegment> = Vec::new();
        let mut i: usize = 0;
        while i < segments.len()
            invariant
                i <= segments@.len(),
                clock_ok(self.rounds@),
                rows == rows_view(self.rounds@),
                duration == duration_spec(rows),
                segments_view(out@) == segments@.take(i as int).map_values(|s: SegmentIn| segment_spec(rows, s)),
            decreases segments@.len() - i,
        {
            let s = &segments[i];
            let pa = self.place(s.first_round);
            let pb = self.place(s.last_round);
            let mut one: Vec<i64> = Vec::new();
            one.push(s.first_round);
            assert(one@ =~= seq![s.first_round]);
            let rounds = match (pa, pb) {
                (Some(a), Some(b)) => if a <= b {
                    self.order_between(a, b)
                } else {
                    one
                },
                _ => one,
            };
            assert(rounds@ == between(rows, s.first_round, s.last_round));
            let start_s: i128 = match pa {
                Some(a) => self.rounds[a].offset,
                None => 0,
            };
            let end_s: i128 = match pb {
                Some(b) => {
                    let r = self.rounds[b];
                    assert(-b * 0x8000_0000_0000_0000 <= r.offset <= b * 0x8000_0000_0000_0000);
                    assert(b * 0x8000_0000_0000_0000 <= 0xFFFF_FFFF_FFFF_FFFE * 0x8000_0000_0000_0000)
                        by (nonlinear_arith)
                        requires
                            b <= 0xFFFF_FFFF_FFFF_FFFE,
                    ;
                    r.offset + r.len as i128
                },
                None => duration,
            };
            let seg = MapSegment {
                map: copy_text(&s.map),
                first_round: s.first_round,
                last_round: s.last_round,
                rounds,
                start_s,
                end_s,
                red_wins: s.red_wins,
                blue_wins: s.blue_wins,
            };
            assert(segment_view(seg) == segment_spec(rows, *s)) by {
                assert(text_of(seg.map) == text_of(s.map));
                match pa {
                    Some(a) => assert(rows[a as int].3 == self.rounds@[a as int].offset),
                    None => {},
                }
                match pb {
                    Some(b) => assert(rows[b as int].3 + rows[b as int].2 == self.rounds@[b as int].offset
                        + self.rounds@[b as int].len),
                    None => {},
                }
            }
            let ghost e = segments_view(out@);
            out.push(seg);
            assert(segments_view(out@) =~= e.push(segment_spec(rows, segments@[i as int])));
            assert(segments@.take(i + 1).map_values(|s: SegmentIn| segment_spec(rows, s)) =~= segments@.take(
                i as int,
            ).map_values(|s: SegmentIn| segment_spec(rows, s)).push(segment_spec(rows, segments@[i as int])));
            i += 1;
        }
        assert(segments@.take(segments@.len() as int) =~= segments@);
        out
    }
}

// ---------------------------------------------------------------------------
// Damage by the other player's class
// ---------------------------------------------------------------------------

/// Damage between a player and one class of opponent in one round (`0` for
/// damage outside every round): dealt to that class, and taken from it.
#[derive(Debug, Clone, Copy, PartialEq, Eq)]
pub struct ClassDamage {
    pub account_id: u32,
    pub other_class: TfClass,
    pub round_num: i64,
    pub dealt: i128,
    pub taken: i128,
}

/// A class's place in Highlander lineup order.
pub open spec fn class_ord(c: TfClass) -> u8 {
    match c {
        TfClass::Scout => 0,
        TfClass::Soldier => 1,
        TfClass::Pyro => 2,
        TfClass::Demoman => 3,
        TfClass::Heavy => 4,
        TfClass::Engineer => 5,
        TfClass::Medic => 6,
        TfClass::Sniper => 7,
        TfClass::Spy => 8,
    }
}

fn class_ord_of(c: TfClass) -> (r: u8)
    ensures
        r == class_ord(c),
{
    match c {
        TfClass::Scout => 0,
        TfClass::Soldier => 1,
        TfClass::Pyro => 2,
        TfClass::Demoman => 3,
        TfClass::Heavy => 4,
        TfClass::Engineer => 5,
        TfClass::Medic => 6,
        TfClass::Sniper => 7,
        TfClass::Spy => 8,
    }
}

/// A line's key: player, the other class by lineup order, round.
pub type DKey = (u32, u8, i64);

pub open spec fn key_lt(a: DKey, b: DKey) -> bool {
    a.0 < b.0 || (a.0 == b.0 && (a.1 < b.1 || (a.1 == b.1 && a.2 < b.2)))
}

pub open spec fn line_key(e: ClassDamage) -> DKey {
    (e.account_id, class_ord(e.other_class), e.round_num)
}

/// The damage logs.tf counts from a hit.
pub open spec fn counted_spec(d: Damage, capped: bool) -> int {
    if !d.live {
        0
    } else if capped && d.amount >= HIT_CAP {
        HIT_CAP as int
    } else {
        d.amount as int
    }
}

/// A hit that counts: some damage, not to oneself.
pub open spec fn hit_counts(d: Damage, capped: bool) -> bool {
    counted_spec(d, capped) != 0 && d.attacker.account != d.victim.account
}

/// The round of a hit on the game clock, `0` outside every round.
pub open spec fn hit_round(rows: Seq<(i64, i64, i64, int)>, d: Damage) -> i64 {
    match game_spec(rows, d.at as int) {
        Some((_, r)) => r,
        None => 0,
    }
}

/// The line a hit adds to as damage dealt, when the victim's class is known.
pub open spec fn dealt_key(rows: Seq<(i64, i64, i64, int)>, d: Damage) -> Option<DKey> {
    match d.victim.class {
        Some(c) => Some((d.attacker.account, class_ord(c), hit_round(rows, d))),
        None => None,
    }
}

/// The line a hit adds to as damage taken, when the attacker's class is
/// known.
pub open spec fn taken_key(rows: Seq<(i64, i64, i64, int)>, d: Damage) -> Option<DKey> {
    match d.attacker.class {
        Some(c) => Some((d.victim.account, class_ord(c), hit_round(rows, d))),
        None => None,
    }
}

/// Damage dealt on line `k` by the first `i` hits.
pub open spec fn dealt_sum(ds: Seq<Damage>, rows: Seq<(i64, i64, i64, int)>, capped: bool, k: DKey, i: int) -> int
    decreases i,
{
    if i <= 0 {
        0
    } else {
        let d = ds[i - 1];
        dealt_sum(ds, rows, capped, k, i - 1) + if hit_counts(d, capped) && dealt_key(rows, d) == Some(
            k,
        ) {
            counted_spec(d, capped)
        } else {
            0
        }
    }
}

/// Damage taken on line `k` from the first `i` hits.
pub open spec fn taken_sum(ds: Seq<Damage>, rows: Seq<(i64, i64, i64, int)>, capped: bool, k: DKey, i: int) -> int
    decreases i,
{
    if i <= 0 {
        0
    } else {
        let d = ds[i - 1];
        taken_sum(ds, rows, capped, k, i - 1) + if hit_counts(d, capped) && taken_key(rows, d) == Some(
            k,
        ) {
            counted_spec(d, capped)
        } else {
            0
        }
    }
}

/// Whether one of the first `i` hits adds to line `k` as damage dealt.
pub open spec fn has_dealt(ds: Seq<Damage>, rows: Seq<(i64, i64, i64, int)>, capped: bool, k: DKey, i: int) -> bool {
    exists|j: int| 0 <= j < i && hit_counts(#[trigger] ds[j], capped) && dealt_key(rows, ds[j]) == Some(k)
}

/// Whether one of the first `i` hits adds to line `k` as damage taken.
pub open spec fn has_taken(ds: Seq<Damage>, rows: Seq<(i64, i64, i64, int)>, capped: bool, k: DKey, i: int) -> bool {
    exists|j: int| 0 <= j < i && hit_counts(#[trigger] ds[j], capped) && taken_key(rows, ds[j]) == Some(k)
}

/// The damage lines of a log: one per player, other class and round that
/// some counted hit adds to, in order of player, class and round, each with
/// the damage dealt to and taken from that class.
pub open spec fn damage_lines_ok(r: Seq<ClassDamage>, ds: Seq<Damage>, rows: Seq<(i64, i64, i64, int)>, capped: bool) -> bool {
    let n = ds.len() as int;
    lists(
        r,
        Map::new(
            |k: DKey| has_dealt(ds, rows, capped, k, n) || has_taken(ds, rows, capped, k, n),
            |k: DKey| (dealt_sum(ds, rows, capped, k, n), taken_sum(ds, rows, capped, k, n)),
        ),
    )
}

/// `out` lists `m` in order of key: one line per key, with its dealt and
/// taken damage.
pub open spec fn lists(out: Seq<ClassDamage>, m: Map<DKey, (int, int)>) -> bool {
    &&& forall|a: int, b: int| 0 <= a < b < out.len() ==> key_lt(line_key(out[a]), line_key(out[b]))
    &&& forall|a: int|
        0 <= a < out.len() ==> m.contains_key(line_key(#[trigger] out[a])) && m[line_key(out[a])] == (
        out[a].dealt as int,
        out[a].taken as int,
    )
    &&& forall|k: DKey| m.contains_key(k) ==> exists|a: int| 0 <= a < out.len() && line_key(#[trigger] out[a]) == k
}

pub open spec fn dealt_map(ds: Seq<Damage>, rows: Seq<(i64, i64, i64, int)>, capped: bool, i: int) -> Map<DKey, (int, int)> {
    Map::new(
        |k: DKey| has_dealt(ds, rows, capped, k, i),
        |k: DKey| (dealt_sum(ds, rows, capped, k, i), 0int),
    )
}

pub open spec fn both_map(ds: Seq<Damage>, rows: Seq<(i64, i64, i64, int)>, capped: bool, i: int) -> Map<DKey, (int, int)> {
    let n = ds.len() as int;
    Map::new(
        |k: DKey| has_dealt(ds, rows, capped, k, n) || has_taken(ds, rows, capped, k, i),
        |k: DKey| (dealt_sum(ds, rows, capped, k, n), taken_sum(ds, rows, capped, k, i)),
    )
}

pub proof fn lemma_no_dealt(ds: Seq<Damage>, rows: Seq<(i64, i64, i64, int)>, capped: bool, k: DKey, i: int)
    requires
        0 <= i <= ds.len(),
        !has_dealt(ds, rows, capped, k, i),
    ensures
        dealt_sum(ds, rows, capped, k, i) == 0,
    decreases i,
{
    if i > 0 {
        assert(!has_dealt(ds, rows, capped, k, i - 1)) by {
            if has_dealt(ds, rows, capped, k, i - 1) {
                let j = choose|j: int|
                    0 <= j < i - 1 && hit_counts(#[trigger] ds[j], capped) && dealt_key(rows, ds[j]) == Some(k);
                assert(0 <= j < i && hit_counts(ds[j], capped) && dealt_key(rows, ds[j]) == Some(k));
            }
        }
        lemma_no_dealt(ds, rows, capped, k, i - 1);
        if hit_counts(ds[i - 1], capped) && dealt_key(rows, ds[i - 1]) == Some(k) {
            assert(has_dealt(ds, rows, capped, k, i));
        }
    }
}

pub proof fn lemma_no_taken(ds: Seq<Damage>, rows: Seq<(i64, i64, i64, int)>, capped: bool, k: DKey, i: int)
    requires
        0 <= i <= ds.len(),
        !has_taken(ds, rows, capped, k, i),
    ensures
        taken_sum(ds, rows, capped, k, i) == 0,
    decreases i,
{
    if i > 0 {
        assert(!has_taken(ds, rows, capped, k, i - 1)) by {
            if has_taken(ds, rows, capped, k, i - 1) {
                let j = choose|j: int|
                    0 <= j < i - 1 && hit_counts(#[trigger] ds[j], capped) && taken_key(rows, ds[j]) == Some(k);
                assert(0 <= j < i && hit_counts(ds[j], capped) && taken_key(rows, ds[j]) == Some(k));
            }
        }
        lemma_no_taken(ds, rows, capped, k, i - 1);
        if hit_counts(ds[i - 1], capped) && taken_key(rows, ds[i - 1]) == Some(k) {
            assert(has_taken(ds, rows, capped, k, i));
        }
    }
}

pub proof fn lemma_sum_bound(ds: Seq<Damage>, rows: Seq<(i64, i64, i64, int)>, capped: bool, k: DKey, i: int)
    requires
        0 <= i <= ds.len(),
    ensures
        -i * 0x8000_0000_0000_0000 <= dealt_sum(ds, rows, capped, k, i) <= i * 0x8000_0000_0000_0000,
        -i * 0x8000_0000_0000_0000 <= taken_sum(ds, rows, capped, k, i) <= i * 0x8000_0000_0000_0000,
    decreases i,
{
    if i > 0 {
        lemma_sum_bound(ds, rows, capped, k, i - 1);
    }
}

/// Where key `k` goes among the sorted lines: the first line not before it.
fn key_place(out: &Vec<ClassDamage>, k: DKey) -> (r: (usize, bool))
    requires
        forall|a: int, b: int| 0 <= a < b < out@.len() ==> key_lt(line_key(out@[a]), line_key(out@[b])),
    ensures
        r.0 <= out@.len(),
        forall|a: int| 0 <= a < r.0 ==> key_lt(line_key(#[trigger] out@[a]), k),
        r.1 ==> r.0 < out@.len() && line_key(out@[r.0 as int]) == k,
        !r.1 ==> forall|a: int| r.0 <= a < out@.len() ==> key_lt(k, line_key(#[trigger] out@[a])),
{
    let mut a: usize = 0;
    while a < out.len()
        invariant
            a <= out@.len(),
            forall|x: int, y: int| 0 <= x < y < out@.len() ==> key_lt(line_key(out@[x]), line_key(out@[y])),
            forall|x: int| 0 <= x < a ==> key_lt(line_key(#[trigger] out@[x]), k),
        decreases out@.len() - a,
    {
        let e = out[a];
        let o = class_ord_of(e.other_class);
        if e.account_id == k.0 && o == k.1 && e.round_num == k.2 {
            return (a, true);
        }
        if e.account_id > k.0 || (e.account_id == k.0 && (o > k.1 || (o == k.1 && e.round_num > k.2))) {
            assert forall|x: int| a <= x < out@.len() implies key_lt(k, line_key(#[trigger] out@[x])) by {
                if x > a {
                    assert(key_lt(line_key(out@[a as int]), line_key(out@[x])));
                }
            }
            return (a, false);
        }
        a += 1;
    }
    (a, false)
}

pub open spec fn added(m: Map<DKey, (int, int)>, k: DKey, amount: int, dealt: bool) -> (int, int) {
    let old = if m.contains_key(k) {
        m[k]
    } else {
        (0int, 0int)
    };
    if dealt {
        (old.0 + amount, old.1)
    } else {
        (old.0, old.1 + amount)
    }
}

/// Adds `amount` to line `k` (dealt or taken), making the line if needed.
fn add_to(out: &mut Vec<ClassDamage>, Ghost(m): Ghost<Map<DKey, (int, int)>>, k: DKey, c: TfClass, amount: i128, dealt: bool)
    requires
        lists(old(out)@, m),
        class_ord(c) == k.1,
        i128::MIN <= added(m, k, amount as int, dealt).0 <= i128::MAX,
        i128::MIN <= added(m, k, amount as int, dealt).1 <= i128::MAX,
    ensures
        lists(final(out)@, m.insert(k, added(m, k, amount as int, dealt))),
{
    let ghost before = out@;
    let ghost m2 = m.insert(k, added(m, k, amount as int, dealt));
    let (p, found) = key_place(out, k);
    if found {
        let e = out[p];
        assert(m.contains_key(k) && m[k] == (e.dealt as int, e.taken as int));
        let e2 = if dealt {
            ClassDamage { dealt: e.dealt + amount, ..e }
        } else {
            ClassDamage { taken: e.taken + amount, ..e }
        };
        out.set(p, e2);
        assert(line_key(e2) == k);
        assert forall|a: int, b: int| 0 <= a < b < out@.len() implies key_lt(line_key(out@[a]), line_key(out@[b])) by {
            assert(line_key(out@[a]) == line_key(before[a]));
            assert(line_key(out@[b]) == line_key(before[b]));
        }
        assert forall|a: int| 0 <= a < out@.len() implies m2.contains_key(line_key(#[trigger] out@[a])) && m2[line_key(
            out@[a],
        )] == (out@[a].dealt as int, out@[a].taken as int) by {
            if a != p {
                assert(out@[a] == before[a]);
                assert(line_key(before[a]) != k) by {
                    if a < p {
                        assert(key_lt(line_key(before[a]), line_key(before[p as int])));
                    } else {
                        assert(key_lt(line_key(before[p as int]), line_key(before[a])));
                    }
                }
            }
        }
        assert forall|q: DKey| m2.contains_key(q) implies exists|a: int| 0 <= a < out@.len() && line_key(#[trigger] out@[a]) == q by {
            if q == k {
                assert(line_key(out@[p as int]) == q);
            } else {
                let a = choose|a: int| 0 <= a < before.len() && line_key(#[trigger] before[a]) == q;
                assert(line_key(out@[a]) == q);
            }
        }
    } else {
        assert(!m.contains_key(k)) by {
            if m.contains_key(k) {
                let a = choose|a: int| 0 <= a < before.len() && line_key(#[trigger] before[a]) == k;
                if a < p {
                    assert(key_lt(line_key(before[a]), k));
                } else {
                    assert(key_lt(k, line_key(before[a])));
                }
            }
        }
        let e = ClassDamage {
            account_id: k.0,
            other_class: c,
            round_num: k.2,
            dealt: if dealt {
                amount
            } else {
                0
            },
            taken: if dealt {
                0
            } else {
                amount
            },
        };
        out.insert(p, e);
        assert(line_key(e) == k);
        assert forall|a: int| 0 <= a < out@.len() && a != p implies #[trigger] out@[a] == (if a < p {
            before[a]
        } else {
            before[a - 1]
        }) by {}
        assert forall|a: int, b: int| 0 <= a < b < out@.len() implies key_lt(line_key(out@[a]), line_key(out@[b])) by {
            if a < p && b > p {
                assert(key_lt(line_key(before[a]), k));
                assert(key_lt(k, line_key(before[b - 1])));
            } else if a < p && b < p {
            } else if a > p {
                assert(key_lt(line_key(before[a - 1]), line_key(before[b - 1])));
            } else if a == p {
                assert(key_lt(k, line_key(before[b - 1])));
            } else {
                assert(key_lt(line_key(before[a]), k));
            }
        }
        assert forall|a: int| 0 <= a < out@.len() implies m2.contains_key(line_key(#[trigger] out@[a])) && m2[line_key(
            out@[a],
        )] == (out@[a].dealt as int, out@[a].taken as int) by {
            if a < p {
                assert(key_lt(line_key(before[a]), k));
                assert(line_key(before[a]) != k);
            } else if a > p {
                assert(key_lt(k, line_key(before[a - 1])));
                assert(line_key(before[a - 1]) != k);
            }
        }
        assert forall|q: DKey| m2.contains_key(q) implies exists|a: int| 0 <= a < out@.len() && line_key(#[trigger] out@[a]) == q by {
            if q == k {
                assert(line_key(out@[p as int]) == q);
            } else {
                let a = choose|a: int| 0 <= a < before.len() && line_key(#[trigger] before[a]) == q;
                if a < p {
                    assert(line_key(out@[a]) == q);
                } else {
                    assert(line_key(out@[a + 1]) == q);
                }
            }
        }
    }
}

impl Clock {
    /// The damage lines of a raw log's hits on this clock: per player,
    /// other class and round, the damage dealt to that class and taken
    /// from it, as logs.tf counts hits (`capped`: at most [`HIT_CAP`] a
    /// hit).
    pub fn damage_by_class(&self, damage: &[Damage], capped: bool) -> (r: Vec<ClassDamage>)
        requires
            clock_ok(self.rounds@),
        ensures
            damage_lines_ok(r@, damage@, rows_view(self.rounds@), capped),
    {
        let ghost rows = rows_view(self.rounds@);
        let ghost ds = damage@;
        let n = damage.len();
        let mut out: Vec<ClassDamage> = Vec::new();
        assert(lists(out@, dealt_map(ds, rows, capped, 0))) by {
            assert forall|k: DKey| !#[trigger] dealt_map(ds, rows, capped, 0).contains_key(k) by {}
        }
        // Damage dealt, hit by hit.
        let mut i: usize = 0;
        while i < n
            invariant
                n == ds.len(),
                i <= n,
                ds == damage@,
                clock_ok(self.rounds@),
                rows == rows_view(self.rounds@),
                lists(out@, dealt_map(ds, rows, capped, i as int)),
            decreases n - i,
        {
            let d = damage[i];
            let amount = d.counted(capped);
            let ghost m = dealt_map(ds, rows, capped, i as int);
            let ghost m1 = dealt_map(ds, rows, capped, i + 1);
            if amount != 0 && d.attacker.account != d.victim.account && d.victim.class.is_some() {
                let c = d.victim.class.unwrap();
                let round = match self.game(d.at) {
                    Some((_, r)) => r,
                    None => 0,
                };
                let k: DKey = (d.attacker.account, class_ord_of(c), round);
                assert(dealt_key(rows, d) == Some(k));
                proof {
                    lemma_sum_bound(ds, rows, capped, k, i as int);
                    if !has_dealt(ds, rows, capped, k, i as int) {
                        lemma_no_dealt(ds, rows, capped, k, i as int);
                    }
                    assert((i + 1) * 0x8000_0000_0000_0000 <= 0xFFFF_FFFF_FFFF_FFFF * 0x8000_0000_0000_0000)
                        by (nonlinear_arith)
                        requires
                            i + 1 <= 0xFFFF_FFFF_FFFF_FFFF,
                    ;
                }
                add_to(&mut out, Ghost(m), k, c, amount as i128, true);
                assert(m1 =~= m.insert(k, added(m, k, amount as int, true))) by {
                    assert forall|q: DKey| m1.contains_key(q) <==> (m.contains_key(q) || q == k) by {
                        if m1.contains_key(q) && !m.contains_key(q) {
                            let j = choose|j: int|
                                0 <= j < i + 1 && hit_counts(#[trigger] ds[j], capped) && dealt_key(rows, ds[j]) == Some(q);
                            if j < i {
                                assert(has_dealt(ds, rows, capped, q, i as int));
                            }
                        }
                        if m.contains_key(q) {
                            let j = choose|j: int|
                                0 <= j < i && hit_counts(#[trigger] ds[j], capped) && dealt_key(rows, ds[j]) == Some(q);
                            assert(has_dealt(ds, rows, capped, q, i + 1));
                        }
                        if q == k {
                            assert(hit_counts(ds[i as int], capped));
                            assert(has_dealt(ds, rows, capped, q, i + 1));
                        }
                    }
                }
            } else {
                assert(m1 =~= m) by {
                    assert forall|q: DKey| m1.contains_key(q) <==> m.contains_key(q) by {
                        if m1.contains_key(q) {
                            let j = choose|j: int|
                                0 <= j < i + 1 && hit_counts(#[trigger] ds[j], capped) && dealt_key(rows, ds[j]) == Some(q);
                            if j < i {
                                assert(has_dealt(ds, rows, capped, q, i as int));
                            } else {
                                assert(dealt_key(rows, d) is None || !hit_counts(d, capped));
                            }
                        }
                        if m.contains_key(q) {
                            let j = choose|j: int|
                                0 <= j < i && hit_counts(#[trigger] ds[j], capped) && dealt_key(rows, ds[j]) == Some(q);
                            assert(has_dealt(ds, rows, capped, q, i + 1));
                        }
                    }
                }
            }
            i += 1;
        }
        assert(dealt_map(ds, rows, capped, n as int) =~= both_map(ds, rows, capped, 0)) by {
            assert forall|q: DKey| !has_taken(ds, rows, capped, q, 0) by {}
        }
        // Damage taken, hit by hit.
        let mut i: usize = 0;
        while i < n
            invariant
                n == ds.len(),
                i <= n,
                ds == damage@,
                clock_ok(self.rounds@),
                rows == rows_view(self.rounds@),
                lists(out@, both_map(ds, rows, capped, i as int)),
            decreases n - i,
        {
            let d = damage[i];
            let amount = d.counted(capped);
            let ghost m = both_map(ds, rows, capped, i as int);
            let ghost m1 = both_map(ds, rows, capped, i + 1);
            if amount != 0 && d.attacker.account != d.victim.account && d.attacker.class.is_some() {
                let c = d.attacker.class.unwrap();
                let round = match self.game(d.at) {
                    Some((_, r)) => r,
                    None => 0,
                };
                let k: DKey = (d.victim.account, class_ord_of(c), round);
                assert(taken_key(rows, d) == Some(k));
                proof {
                    lemma_sum_bound(ds, rows, capped, k, i as int);
                    lemma_sum_bound(ds, rows, capped, k, n as int);
                    if !has_taken(ds, rows, capped, k, i as int) {
                        lemma_no_taken(ds, rows, capped, k, i as int);
                    }
                    if !has_dealt(ds, rows, capped, k, n as int) {
                        lemma_no_dealt(ds, rows, capped, k, n as int);
                    }
                    assert((i + 1) * 0x8000_0000_0000_0000 <= 0xFFFF_FFFF_FFFF_FFFF * 0x8000_0000_0000_0000)
                        by (nonlinear_arith)
                        requires
                            i + 1 <= 0xFFFF_FFFF_FFFF_FFFF,
                    ;
                    assert(n * 0x8000_0000_0000_0000 <= 0xFFFF_FFFF_FFFF_FFFF * 0x8000_0000_0000_0000)
                        by (nonlinear_arith)
                        requires
                            n <= 0xFFFF_FFFF_FFFF_FFFF,
                    ;
                }
                add_to(&mut out, Ghost(m), k, c, amount as i128, false);
                assert(m1 =~= m.insert(k, added(m, k, amount as int, false))) by {
                    assert forall|q: DKey| m1.contains_key(q) <==> (m.contains_key(q) || q == k) by {
                        if has_taken(ds, rows, capped, q, i + 1) && !has_taken(ds, rows, capped, q, i as int) {
                            let j = choose|j: int|
                                0 <= j < i + 1 && hit_counts(#[trigger] ds[j], capped) && taken_key(rows, ds[j]) == Some(q);
                            if j < i {
                                assert(has_taken(ds, rows, capped, q, i as int));
                            }
                        }
                        if has_taken(ds, rows, capped, q, i as int) {
                            let j = choose|j: int|
                                0 <= j < i && hit_counts(#[trigger] ds[j], capped) && taken_key(rows, ds[j]) == Some(q);
                            assert(has_taken(ds, rows, capped, q, i + 1));
                        }
                        if q == k {
                            assert(hit_counts(ds[i as int], capped));
                            assert(has_taken(ds, rows, capped, q, i + 1));
                        }
                    }
                    if !m.contains_key(k) {
                        lemma_no_dealt(ds, rows, capped, k, n as int);
                        lemma_no_taken(ds, rows, capped, k, i as int);
                    }
                }
            } else {
                assert(m1 =~= m) by {
                    assert forall|q: DKey| has_taken(ds, rows, capped, q, i + 1) <==> has_taken(ds, rows, capped, q, i as int) by {
                        if has_taken(ds, rows, capped, q, i + 1) {
                            let j = choose|j: int|
                                0 <= j < i + 1 && hit_counts(#[trigger] ds[j], capped) && taken_key(rows, ds[j]) == Some(q);
                            if j < i {
                                assert(has_taken(ds, rows, capped, q, i as int));
                            } else {
                                assert(taken_key(rows, d) is None || !hit_counts(d, capped));
                            }
                        }
                        if has_taken(ds, rows, capped, q, i as int) {
                            let j = choose|j: int|
                                0 <= j < i && hit_counts(#[trigger] ds[j], capped) && taken_key(rows, ds[j]) == Some(q);
                            assert(has_taken(ds, rows, capped, q, i + 1));
                        }
                    }
                }
            }
            i += 1;
        }
        out
    }
}

// ---------------------------------------------------------------------------
// Kills on the game clock
// ---------------------------------------------------------------------------

/// A kill logs.tf counts, placed on the game clock: its place in the raw
/// log's kill list, its game time and its round.
#[derive(Debug, Clone, Copy, PartialEq, Eq)]
pub struct PlacedKill {
    pub index: usize,
    pub t: i128,
    pub round_num: i64,
}

pub open spec fn placed_view(p: PlacedKill) -> (int, int, i64) {
    (p.index as int, p.t as int, p.round_num)
}

/// The counted kills among the first `n` that fall in a round, in the log's
/// order, as (place, game time, round).
pub open spec fn placed_upto(ks: Seq<KillV>, rows: Seq<(i64, i64, i64, int)>, n: int) -> Seq<(int, int, i64)>
    decreases n,
{
    if n <= 0 {
        Seq::empty()
    } else {
        let prev = placed_upto(ks, rows, n - 1);
        let k = ks[n - 1];
        if kill_counts(k) {
            match game_spec(rows, k.at as int) {
                Some((t, r)) => prev.push((n - 1, t, r)),
                None => prev,
            }
        } else {
            prev
        }
    }
}

/// How many of the items at `ord` have a key at or before `t`.
pub open spec fn count_upto(ord: Seq<int>, keys: Seq<int>, t: int) -> nat
    decreases ord.len(),
{
    if ord.len() == 0 {
        0
    } else {
        count_upto(ord.drop_last(), keys, t) + if keys[ord.last()] <= t {
            1nat
        } else {
            0nat
        }
    }
}

/// The first `n` items in order of key, items with equal keys in their
/// given order (a stable insertion sort).
pub open spec fn by_key(keys: Seq<int>, n: int) -> Seq<int>
    decreases n,
{
    if n <= 0 {
        Seq::empty()
    } else {
        let ord = by_key(keys, n - 1);
        ord.insert(count_upto(ord, keys, keys[n - 1]) as int, n - 1)
    }
}

pub proof fn lemma_count_upto_splits(ord: Seq<int>, keys: Seq<int>, t: int)
    requires
        forall|a: int, b: int| 0 <= a < b < ord.len() ==> keys[ord[a]] <= keys[ord[b]],
    ensures
        count_upto(ord, keys, t) <= ord.len(),
        forall|x: int| 0 <= x < count_upto(ord, keys, t) ==> keys[#[trigger] ord[x]] <= t,
        forall|x: int| count_upto(ord, keys, t) <= x < ord.len() ==> keys[#[trigger] ord[x]] > t,
    decreases ord.len(),
{
    if ord.len() > 0 {
        let d = ord.drop_last();
        assert forall|a: int, b: int| 0 <= a < b < d.len() implies keys[d[a]] <= keys[d[b]] by {
            assert(d[a] == ord[a] && d[b] == ord[b]);
        }
        lemma_count_upto_splits(d, keys, t);
        let c = count_upto(d, keys, t);
        if keys[ord.last()] <= t {
            assert forall|x: int| 0 <= x < ord.len() implies keys[#[trigger] ord[x]] <= t by {
                if x < ord.len() - 1 {
                    assert(keys[ord[x]] <= keys[ord[ord.len() - 1]]);
                }
            }
            assert(c == d.len()) by {
                if c < d.len() {
                    assert(keys[d[c as int]] > t);
                    assert(keys[ord[c as int]] <= keys[ord[ord.len() - 1]]);
                }
            }
        } else {
            assert forall|x: int| 0 <= x < c implies keys[#[trigger] ord[x]] <= t by {
                assert(d[x] == ord[x]);
            }
            assert forall|x: int| c <= x < ord.len() implies keys[#[trigger] ord[x]] > t by {
                if x < ord.len() - 1 {
                    assert(d[x] == ord[x]);
                }
            }
        }
    }
}

/// The order by key is an order of the items: each once, smallest key
/// first.
pub proof fn lemma_by_key(keys: Seq<int>, n: int)
    requires
        0 <= n <= keys.len(),
    ensures
        by_key(keys, n).len() == n,
        forall|x: int| 0 <= x < n ==> 0 <= #[trigger] by_key(keys, n)[x] < n,
        forall|a: int, b: int| 0 <= a < b < n ==> keys[by_key(keys, n)[a]] <= keys[by_key(keys, n)[b]],
        forall|x: int| 0 <= x < n ==> #[trigger] by_key(keys, n).contains(x),
    decreases n,
{
    if n > 0 {
        lemma_by_key(keys, n - 1);
        let ord = by_key(keys, n - 1);
        let t = keys[n - 1];
        lemma_count_upto_splits(ord, keys, t);
        let c = count_upto(ord, keys, t) as int;
        let o2 = ord.insert(c, n - 1);
        assert(by_key(keys, n) == o2);
        assert forall|x: int| 0 <= x < n implies #[trigger] o2.contains(x) by {
            if x == n - 1 {
                assert(o2[c] == x);
            } else {
                assert(ord.contains(x));
                let p = choose|p: int| 0 <= p < ord.len() && ord[p] == x;
                if p < c {
                    assert(o2[p] == x);
                } else {
                    assert(o2[p + 1] == x);
                }
            }
        }
        assert forall|x: int| 0 <= x < n implies 0 <= #[trigger] o2[x] < n by {
            if x < c {
                assert(o2[x] == ord[x]);
            } else if x > c {
                assert(o2[x] == ord[x - 1]);
            }
        }
        assert forall|a: int, b: int| 0 <= a < b < n implies keys[o2[a]] <= keys[o2[b]] by {
            if a < c {
                assert(o2[a] == ord[a]);
                assert(keys[ord[a]] <= t);
                if b < c {
                    assert(o2[b] == ord[b]);
                } else if b > c {
                    assert(o2[b] == ord[b - 1]);
                    assert(keys[ord[b - 1]] > t);
                }
            } else if a == c {
                assert(o2[b] == ord[b - 1]);
                assert(keys[ord[b - 1]] > t);
            } else {
                assert(o2[a] == ord[a - 1]);
                assert(o2[b] == ord[b - 1]);
            }
        }
    }
}

/// The kills on the game clock come in game-time order.
pub proof fn lemma_kills_in_time_order(ks: Seq<KillV>, rows: Seq<(i64, i64, i64, int)>)
    ensures
        forall|a: int, b: int|
            0 <= a < b < kills_on_clock_spec(ks, rows).len() ==> kills_on_clock_spec(ks, rows)[a].1
                <= kills_on_clock_spec(ks, rows)[b].1,
{
    let p = placed_upto(ks, rows, ks.len() as int);
    let keys = p.map_values(|x: (int, int, i64)| x.1);
    lemma_by_key(keys, p.len() as int);
    let ord = by_key(keys, p.len() as int);
    assert forall|a: int, b: int| 0 <= a < b < kills_on_clock_spec(ks, rows).len() implies kills_on_clock_spec(
        ks,
        rows,
    )[a].1 <= kills_on_clock_spec(ks, rows)[b].1 by {
        assert(keys[ord[a]] <= keys[ord[b]]);
        assert(0 <= ord[a] < p.len() && 0 <= ord[b] < p.len());
    }
}

/// The play-by-play comes in game-time order.
pub proof fn lemma_play_in_time_order(
    log_rounds: Seq<RoundLine>,
    ps: Seq<PlayerLine>,
    cs: Seq<ChatV>,
    ks: Seq<KillV>,
    rows: Seq<(i64, i64, i64, int)>,
)
    ensures
        forall|a: int, b: int|
            0 <= a < b < play_spec(log_rounds, ps, cs, ks, rows).len() ==> play_spec(log_rounds, ps, cs, ks, rows)[a].0
                <= play_spec(log_rounds, ps, cs, ks, rows)[b].0,
{
    let u = play_unsorted(log_rounds, ps, cs, ks, rows);
    let keys = u.map_values(|e: EventV| e.0);
    lemma_by_key(keys, u.len() as int);
    let ord = by_key(keys, u.len() as int);
    let pl = play_spec(log_rounds, ps, cs, ks, rows);
    assert forall|a: int, b: int| 0 <= a < b < pl.len() implies pl[a].0 <= pl[b].0 by {
        assert(keys[ord[a]] <= keys[ord[b]]);
        assert(0 <= ord[a] < u.len() && 0 <= ord[b] < u.len());
    }
}

pub open spec fn keys_view(v: Seq<i128>) -> Seq<int> {
    v.map_values(|t: i128| t as int)
}

/// The places of `keys` in order of key, equal keys in their given order.
pub fn stable_order(keys: &[i128]) -> (ord: Vec<usize>)
    ensures
        ord@.map_values(|j: usize| j as int) == by_key(keys_view(keys@), keys@.len() as int),
        ord@.len() == keys@.len(),
        forall|q: int| 0 <= q < ord@.len() ==> #[trigger] ord@[q] < keys@.len(),
{
    let ghost kv = keys_view(keys@);
    let mut ord: Vec<usize> = Vec::new();
    let mut i: usize = 0;
    while i < keys.len()
        invariant
            i <= keys@.len(),
            kv == keys_view(keys@),
            ord@.map_values(|j: usize| j as int) == by_key(kv, i as int),
            ord@.len() == i,
            forall|q: int| 0 <= q < ord@.len() ==> #[trigger] ord@[q] < i,
        decreases keys@.len() - i,
    {
        let t = keys[i];
        let mut c: usize = 0;
        let mut n: usize = 0;
        while n < ord.len()
            invariant
                n <= ord@.len() == i,
                c <= n,
                i < keys@.len(),
                t == keys@[i as int],
                kv == keys_view(keys@),
                forall|q: int| 0 <= q < ord@.len() ==> #[trigger] ord@[q] < i,
                c == count_upto(ord@.map_values(|j: usize| j as int).take(n as int), kv, t as int),
            decreases ord@.len() - n,
        {
            assert(ord@.map_values(|j: usize| j as int).take(n + 1).drop_last() =~= ord@.map_values(
                |j: usize| j as int,
            ).take(n as int));
            let j = ord[n];
            if keys[j] <= t {
                c += 1;
            }
            n += 1;
        }
        assert(ord@.map_values(|j: usize| j as int).take(ord@.len() as int) =~= ord@.map_values(
            |j: usize| j as int,
        ));
        let ghost before = ord@;
        ord.insert(c, i);
        assert(ord@.map_values(|j: usize| j as int) =~= before.map_values(|j: usize| j as int).insert(
            c as int,
            i as int,
        ));
        i += 1;
        assert forall|q: int| 0 <= q < ord@.len() implies #[trigger] ord@[q] < i by {
            if q < c {
                assert(ord@[q] == before[q]);
            } else if q > c {
                assert(ord@[q] == before[q - 1]);
            }
        }
    }
    ord
}

/// The counted kills inside rounds, in game-time order (kills at the same
/// moment in the log's order).
pub open spec fn kills_on_clock_spec(ks: Seq<KillV>, rows: Seq<(i64, i64, i64, int)>) -> Seq<(int, int, i64)> {
    let p = placed_upto(ks, rows, ks.len() as int);
    let ord = by_key(p.map_values(|x: (int, int, i64)| x.1), p.len() as int);
    Seq::new(ord.len(), |k: int| p[ord[k]])
}

impl Clock {
    /// The kills logs.tf counts that fall inside a round, placed on the
    /// game clock and put in game-time order.
    pub fn kills_on_clock(&self, kills: &[Kill]) -> (r: Vec<PlacedKill>)
        requires
            clock_ok(self.rounds@),
        ensures
            r@.map_values(|p: PlacedKill| placed_view(p)) == kills_on_clock_spec(
                kills@.map_values(|k: Kill| k@),
                rows_view(self.rounds@),
            ),
            forall|q: int| 0 <= q < r@.len() ==> (#[trigger] r@[q]).index < kills@.len(),
    {
        let ghost rows = rows_view(self.rounds@);
        let ghost ks = kills@.map_values(|k: Kill| k@);
        let mut placed: Vec<PlacedKill> = Vec::new();
        let mut i: usize = 0;
        while i < kills.len()
            invariant
                i <= kills@.len(),
                clock_ok(self.rounds@),
                rows == rows_view(self.rounds@),
                ks == kills@.map_values(|k: Kill| k@),
                placed@.map_values(|p: PlacedKill| placed_view(p)) == placed_upto(ks, rows, i as int),
                forall|q: int| 0 <= q < placed@.len() ==> (#[trigger] placed@[q]).index < i,
            decreases kills@.len() - i,
        {
            let k = &kills[i];
            assert(ks[i as int] == k@);
            if k.counts() {
                match self.game(k.at) {
                    Some((t, r)) => {
                        let ghost before = placed@;
                        placed.push(PlacedKill { index: i, t, round_num: r });
                        assert forall|q: int| 0 <= q < placed@.len() implies (#[trigger] placed@[q]).index < i + 1 by {
                            if q < before.len() {
                                assert(placed@[q] == before[q]);
                            }
                        }
                        assert(placed@.map_values(|p: PlacedKill| placed_view(p)) =~= before.map_values(
                            |p: PlacedKill| placed_view(p),
                        ).push((i as int, t as int, r)));
                    },
                    None => {},
                }
            }
            i += 1;
        }
        let ghost pv = placed@.map_values(|p: PlacedKill| placed_view(p));
        let ghost keys = pv.map_values(|x: (int, int, i64)| x.1);
        // In game-time order, kills at the same moment in the log's order.
        let mut times: Vec<i128> = Vec::new();
        let mut i: usize = 0;
        while i < placed.len()
            invariant
                i <= placed@.len(),
                pv == placed@.map_values(|p: PlacedKill| placed_view(p)),
                keys == pv.map_values(|x: (int, int, i64)| x.1),
                keys_view(times@) == keys.take(i as int),
                times@.len() == i,
            decreases placed@.len() - i,
        {
            assert(keys[i as int] == placed@[i as int].t as int);
            times.push(placed[i].t);
            assert(keys_view(times@) =~= keys.take(i + 1));
            i += 1;
        }
        assert(keys.take(placed@.len() as int) =~= keys);
        let ord = stable_order(times.as_slice());
        let mut out: Vec<PlacedKill> = Vec::new();
        let mut k: usize = 0;
        let ghost ov = ord@.map_values(|j: usize| j as int);
        while k < ord.len()
            invariant
                k <= ord@.len(),
                ord@.len() == placed@.len(),
                ov == ord@.map_values(|j: usize| j as int),
                ov == by_key(keys, placed@.len() as int),
                pv == placed@.map_values(|p: PlacedKill| placed_view(p)),
                keys == pv.map_values(|x: (int, int, i64)| x.1),
                forall|q: int| 0 <= q < ord@.len() ==> #[trigger] ord@[q] < placed@.len(),
                out@.len() == k,
                out@.map_values(|p: PlacedKill| placed_view(p)) == Seq::new(k as nat, |x: int| pv[ov[x]]),
                forall|q: int| 0 <= q < placed@.len() ==> (#[trigger] placed@[q]).index < kills@.len(),
                forall|q: int| 0 <= q < out@.len() ==> (#[trigger] out@[q]).index < kills@.len(),
            decreases ord@.len() - k,
        {
            let j = ord[k];
            let ghost before = out@;
            out.push(placed[j]);
            assert forall|q: int| 0 <= q < out@.len() implies (#[trigger] out@[q]).index < kills@.len() by {
                if q < k {
                    assert(out@[q] == before[q]);
                }
            }
            assert(out@.map_values(|p: PlacedKill| placed_view(p)) =~= Seq::new((k + 1) as nat, |x: int| pv[ov[x]]))
                by {
                assert(before.map_values(|p: PlacedKill| placed_view(p)) == Seq::new(k as nat, |x: int| pv[ov[x]]));
                assert forall|x: int| 0 <= x < k implies out@.map_values(|p: PlacedKill| placed_view(p))[x]
                    == pv[ov[x]] by {
                    assert(out@[x] == before[x]);
                    assert(before.map_values(|p: PlacedKill| placed_view(p))[x] == placed_view(before[x]));
                    assert(Seq::new(k as nat, |x: int| pv[ov[x]])[x] == pv[ov[x]]);
                }
            }
            k += 1;
        }
        assert(ov.len() == pv.len());
        out
    }
}

// ---------------------------------------------------------------------------
// Damage over time
// ---------------------------------------------------------------------------

/// Damage timeline resolution, in game seconds.
pub const BUCKET_S: i128 = 30;

/// How many buckets a clock of `duration` game seconds has: enough to
/// cover it, and at least one.
pub open spec fn bucket_count(duration: int) -> int {
    if duration <= 0 {
        1
    } else {
        (duration + 29) / 30
    }
}

/// The bucket of game second `t`: the last one takes what lies past the
/// end, the first what lies before the start.
pub open spec fn bucket_of(t: int, n: int) -> int {
    if t < 0 {
        0
    } else if t / 30 >= n {
        n - 1
    } else {
        t / 30
    }
}

/// The game time of a hit, when it falls in a round.
pub open spec fn hit_time(rows: Seq<(i64, i64, i64, int)>, d: Damage) -> Option<int> {
    match game_spec(rows, d.at as int) {
        Some((t, _)) => Some(t),
        None => None,
    }
}

/// Damage dealt by `a` in bucket `b` (of `n`) by the first `i` hits.
pub open spec fn series_sum(ds: Seq<Damage>, rows: Seq<(i64, i64, i64, int)>, capped: bool, n: int, a: u32, b: int, i: int) -> int
    decreases i,
{
    if i <= 0 {
        0
    } else {
        let d = ds[i - 1];
        series_sum(ds, rows, capped, n, a, b, i - 1) + if hit_counts(d, capped) && d.attacker.account == a
            && hit_time(rows, d) is Some && bucket_of(hit_time(rows, d).unwrap(), n) == b {
            counted_spec(d, capped)
        } else {
            0
        }
    }
}

/// Whether one of the first `i` hits is a counted hit by `a` in a round.
pub open spec fn has_series(ds: Seq<Damage>, rows: Seq<(i64, i64, i64, int)>, capped: bool, a: u32, i: int) -> bool {
    exists|j: int|
        0 <= j < i && hit_counts(#[trigger] ds[j], capped) && ds[j].attacker.account == a && hit_time(
            rows,
            ds[j],
        ) is Some
}

pub open spec fn series_map(ds: Seq<Damage>, rows: Seq<(i64, i64, i64, int)>, capped: bool, n: int, i: int) -> Map<u32, Seq<int>> {
    Map::new(
        |a: u32| has_series(ds, rows, capped, a, i),
        |a: u32| Seq::new(n as nat, |b: int| series_sum(ds, rows, capped, n, a, b, i)),
    )
}

pub open spec fn buckets_view(v: Seq<i128>) -> Seq<int> {
    v.map_values(|x: i128| x as int)
}

/// `out` lists `m` in order of account.
pub open spec fn lists_series(out: Seq<(u32, Vec<i128>)>, m: Map<u32, Seq<int>>) -> bool {
    &&& forall|x: int, y: int| 0 <= x < y < out.len() ==> out[x].0 < out[y].0
    &&& forall|x: int|
        0 <= x < out.len() ==> m.contains_key((#[trigger] out[x]).0) && m[out[x].0] == buckets_view(
            out[x].1@,
        )
    &&& forall|a: u32| m.contains_key(a) ==> exists|x: int| 0 <= x < out.len() && (#[trigger] out[x]).0 == a
}

/// The damage timeline of a log: for each player with a counted hit
/// inside a round, in order of account, the damage dealt in each
/// [`BUCKET_S`]-second bucket of game time.
pub open spec fn series_ok(r: Seq<(u32, Vec<i128>)>, ds: Seq<Damage>, rows: Seq<(i64, i64, i64, int)>, capped: bool) -> bool {
    lists_series(r, series_map(ds, rows, capped, bucket_count(duration_spec(rows)), ds.len() as int))
}

pub proof fn lemma_series_bound(ds: Seq<Damage>, rows: Seq<(i64, i64, i64, int)>, capped: bool, n: int, a: u32, b: int, i: int)
    requires
        0 <= i <= ds.len(),
    ensures
        -i * 0x8000_0000_0000_0000 <= series_sum(ds, rows, capped, n, a, b, i) <= i * 0x8000_0000_0000_0000,
    decreases i,
{
    if i > 0 {
        lemma_series_bound(ds, rows, capped, n, a, b, i - 1);
    }
}

pub proof fn lemma_no_series(ds: Seq<Damage>, rows: Seq<(i64, i64, i64, int)>, capped: bool, n: int, a: u32, b: int, i: int)
    requires
        0 <= i <= ds.len(),
        !has_series(ds, rows, capped, a, i),
    ensures
        series_sum(ds, rows, capped, n, a, b, i) == 0,
    decreases i,
{
    if i > 0 {
        assert(!has_series(ds, rows, capped, a, i - 1)) by {
            if has_series(ds, rows, capped, a, i - 1) {
                let j = choose|j: int|
                    0 <= j < i - 1 && hit_counts(#[trigger] ds[j], capped) && ds[j].attacker.account == a
                        && hit_time(rows, ds[j]) is Some;
                assert(0 <= j < i && hit_counts(ds[j], capped) && ds[j].attacker.account == a && hit_time(
                    rows,
                    ds[j],
                ) is Some);
            }
        }
        lemma_no_series(ds, rows, capped, n, a, b, i - 1);
        let d = ds[i - 1];
        if hit_counts(d, capped) && d.attacker.account == a && hit_time(rows, d) is Some {
            assert(has_series(ds, rows, capped, a, i));
        }
    }
}

fn zeros(n: usize) -> (v: Vec<i128>)
    ensures
        v@.len() == n,
        forall|b: int| 0 <= b < n ==> #[trigger] v@[b] == 0,
{
    let mut v: Vec<i128> = Vec::new();
    while v.len() < n
        invariant
            v@.len() <= n,
            forall|b: int| 0 <= b < v@.len() ==> #[trigger] v@[b] == 0,
        decreases n - v@.len(),
    {
        v.push(0);
    }
    v
}

fn copy_buckets(v: &Vec<i128>) -> (r: Vec<i128>)
    ensures
        r@ == v@,
{
    let mut out: Vec<i128> = Vec::new();
    let mut i: usize = 0;
    while i < v.len()
        invariant
            i <= v@.len(),
            out@ == v@.take(i as int),
        decreases v@.len() - i,
    {
        out.push(v[i]);
        assert(v@.take(i + 1) =~= v@.take(i as int).push(v@[i as int]));
        i += 1;
    }
    assert(v@.take(v@.len() as int) =~= v@);
    out
}

pub open spec fn bumped(m: Map<u32, Seq<int>>, a: u32, n: int, b: int, amount: int) -> Seq<int> {
    let old = if m.contains_key(a) {
        m[a]
    } else {
        Seq::new(n as nat, |x: int| 0int)
    };
    old.update(b, old[b] + amount)
}

/// Adds `amount` to bucket `b` of `a`'s timeline, starting one of `n`
/// empty buckets if `a` has none yet.
fn add_series(out: &mut Vec<(u32, Vec<i128>)>, Ghost(m): Ghost<Map<u32, Seq<int>>>, a: u32, n: usize, b: usize, amount: i128)
    requires
        lists_series(old(out)@, m),
        forall|k: u32| #[trigger] m.contains_key(k) ==> m[k].len() == n,
        b < n,
        i128::MIN <= bumped(m, a, n as int, b as int, amount as int)[b as int] <= i128::MAX,
    ensures
        lists_series(final(out)@, m.insert(a, bumped(m, a, n as int, b as int, amount as int))),
{
    let ghost before = out@;
    let ghost m2 = m.insert(a, bumped(m, a, n as int, b as int, amount as int));
    let mut p: usize = 0;
    while p < out.len() && out[p].0 < a
        invariant
            p <= out@.len(),
            out@ == before,
            forall|x: int| 0 <= x < p ==> (#[trigger] out@[x]).0 < a,
        decreases out@.len() - p,
    {
        p += 1;
    }
    assert forall|x: int| p < x < out@.len() implies (#[trigger] out@[x]).0 > a by {
        assert(out@[p as int].0 < out@[x].0);
    }
    if p < out.len() && out[p].0 == a {
        assert(m.contains_key(a) && m[a] == buckets_view(out@[p as int].1@));
        let mut v = copy_buckets(&out[p].1);
        let x = v[b];
        v.set(b, x + amount);
        assert(buckets_view(v@) =~= bumped(m, a, n as int, b as int, amount as int));
        out.set(p, (a, v));
        assert forall|x: int| 0 <= x < out@.len() implies m2.contains_key((#[trigger] out@[x]).0) && m2[out@[x].0]
            == buckets_view(out@[x].1@) by {
            if x != p {
                assert(out@[x] == before[x]);
            }
        }
        assert forall|k: u32| m2.contains_key(k) implies exists|x: int| 0 <= x < out@.len() && (#[trigger] out@[x]).0 == k by {
            if k == a {
                assert(out@[p as int].0 == k);
            } else {
                let x = choose|x: int| 0 <= x < before.len() && (#[trigger] before[x]).0 == k;
                assert(out@[x].0 == k);
            }
        }
    } else {
        assert(!m.contains_key(a)) by {
            if m.contains_key(a) {
                let x = choose|x: int| 0 <= x < before.len() && (#[trigger] before[x]).0 == a;
                if x < p {
                } else if x > p {
                } else {
                }
            }
        }
        let mut v = zeros(n);
        v.set(b, amount);
        assert(buckets_view(v@) =~= bumped(m, a, n as int, b as int, amount as int));
        out.insert(p, (a, v));
        assert forall|x: int| 0 <= x < out@.len() && x != p implies #[trigger] out@[x] == (if x < p {
            before[x]
        } else {
            before[x - 1]
        }) by {}
        assert forall|x: int, y: int| 0 <= x < y < out@.len() implies out@[x].0 < out@[y].0 by {
            if x < p && y > p {
                assert(before[x].0 < a);
                assert(before[y - 1].0 > a);
            } else if x > p {
                assert(before[x - 1].0 < before[y - 1].0);
            } else if x == p {
                assert(before[y - 1].0 > a);
            } else if y == p {
                assert(before[x].0 < a);
            }
        }
        assert forall|x: int| 0 <= x < out@.len() implies m2.contains_key((#[trigger] out@[x]).0) && m2[out@[x].0]
            == buckets_view(out@[x].1@) by {
            if x < p {
                assert(before[x].0 != a);
            } else if x > p {
                assert(before[x - 1].0 != a);
            }
        }
        assert forall|k: u32| m2.contains_key(k) implies exists|x: int| 0 <= x < out@.len() && (#[trigger] out@[x]).0 == k by {
            if k == a {
                assert(out@[p as int].0 == k);
            } else {
                let x = choose|x: int| 0 <= x < before.len() && (#[trigger] before[x]).0 == k;
                if x < p {
                    assert(out@[x].0 == k);
                } else {
                    assert(out@[x + 1].0 == k);
                }
            }
        }
    }
}

impl Clock {
    /// The damage timeline of a raw log's hits on this clock: per player
    /// with a counted hit inside a round, in order of account, the damage
    /// dealt in each [`BUCKET_S`]-second bucket of game time.
    pub fn damage_series(&self, damage: &[Damage], capped: bool) -> (r: Vec<(u32, Vec<i128>)>)
        requires
            clock_ok(self.rounds@),
            bucket_count(duration_spec(rows_view(self.rounds@))) <= isize::MAX / 16,
        ensures
            series_ok(r@, damage@, rows_view(self.rounds@), capped),
    {
        let ghost rows = rows_view(self.rounds@);
        let ghost ds = damage@;
        let dur = self.duration();
        let nb: usize = if dur <= 0 {
            1
        } else {
            assert((dur + 29) / 30 == bucket_count(dur as int));
            ((dur + 29) / 30) as usize
        };
        let ghost n = nb as int;
        assert(n == bucket_count(duration_spec(rows)));
        let len = damage.len();
        let mut out: Vec<(u32, Vec<i128>)> = Vec::new();
        assert(lists_series(out@, series_map(ds, rows, capped, n, 0))) by {
            assert forall|a: u32| !#[trigger] series_map(ds, rows, capped, n, 0).contains_key(a) by {}
        }
        let mut i: usize = 0;
        while i < len
            invariant
                len == ds.len(),
                i <= len,
                ds == damage@,
                clock_ok(self.rounds@),
                rows == rows_view(self.rounds@),
                n == nb,
                nb >= 1,
                lists_series(out@, series_map(ds, rows, capped, n, i as int)),
            decreases len - i,
        {
            let d = damage[i];
            let amount = d.counted(capped);
            let ghost m = series_map(ds, rows, capped, n, i as int);
            let ghost m1 = series_map(ds, rows, capped, n, i + 1);
            let placed = if amount != 0 && d.attacker.account != d.victim.account {
                self.game(d.at)
            } else {
                None
            };
            match placed {
                Some((t, _)) => {
                    assert(hit_time(rows, d) == Some(t as int));
                    let q = if t < 0 {
                        0
                    } else {
                        t / 30
                    };
                    let b: usize = if q >= nb as i128 {
                        nb - 1
                    } else {
                        q as usize
                    };
                    assert(b == bucket_of(t as int, n));
                    let a = d.attacker.account;
                    proof {
                        lemma_series_bound(ds, rows, capped, n, a, b as int, i as int);
                        if !has_series(ds, rows, capped, a, i as int) {
                            lemma_no_series(ds, rows, capped, n, a, b as int, i as int);
                        }
                        assert((i + 1) * 0x8000_0000_0000_0000 <= 0xFFFF_FFFF_FFFF_FFFF * 0x8000_0000_0000_0000)
                            by (nonlinear_arith)
                            requires
                                i + 1 <= 0xFFFF_FFFF_FFFF_FFFF,
                        ;
                    }
                    add_series(&mut out, Ghost(m), a, nb, b, amount as i128);
                    assert(m1 =~= m.insert(a, bumped(m, a, n, b as int, amount as int))) by {
                        assert forall|k: u32| m1.contains_key(k) <==> (m.contains_key(k) || k == a) by {
                            if has_series(ds, rows, capped, k, i + 1) && !has_series(ds, rows, capped, k, i as int) {
                                let j = choose|j: int|
                                    0 <= j < i + 1 && hit_counts(#[trigger] ds[j], capped) && ds[j].attacker.account == k
                                        && hit_time(rows, ds[j]) is Some;
                                if j < i {
                                    assert(has_series(ds, rows, capped, k, i as int));
                                }
                            }
                            if has_series(ds, rows, capped, k, i as int) {
                                let j = choose|j: int|
                                    0 <= j < i && hit_counts(#[trigger] ds[j], capped) && ds[j].attacker.account == k
                                        && hit_time(rows, ds[j]) is Some;
                                assert(has_series(ds, rows, capped, k, i + 1));
                            }
                            if k == a {
                                assert(hit_counts(ds[i as int], capped));
                                assert(has_series(ds, rows, capped, k, i + 1));
                            }
                        }
                        assert forall|k: u32| #[trigger] m1.contains_key(k) implies m1[k] =~= m.insert(
                            a,
                            bumped(m, a, n, b as int, amount as int),
                        )[k] by {
                            if k == a {
                                let bv = bumped(m, a, n, b as int, amount as int);
                                assert forall|x: int| 0 <= x < n implies m1[k][x] == bv[x] by {
                                    if !m.contains_key(a) {
                                        lemma_no_series(ds, rows, capped, n, a, x, i as int);
                                    }
                                    assert(m1[k][x] == series_sum(ds, rows, capped, n, a, x, i + 1));
                                }
                            } else {
                                assert(m.contains_key(k));
                                assert forall|x: int| 0 <= x < n implies m1[k][x] == m[k][x] by {
                                    assert(m1[k][x] == series_sum(ds, rows, capped, n, k, x, i + 1));
                                    assert(m[k][x] == series_sum(ds, rows, capped, n, k, x, i as int));
                                }
                            }
                        }
                    }
                },
                None => {
                    assert(m1 =~= m) by {
                        assert forall|k: u32| has_series(ds, rows, capped, k, i + 1) <==> has_series(ds, rows, capped, k, i as int) by {
                            if has_series(ds, rows, capped, k, i + 1) {
                                let j = choose|j: int|
                                    0 <= j < i + 1 && hit_counts(#[trigger] ds[j], capped) && ds[j].attacker.account == k
                                        && hit_time(rows, ds[j]) is Some;
                                if j < i {
                                    assert(has_series(ds, rows, capped, k, i as int));
                                }
                            }
                            if has_series(ds, rows, capped, k, i as int) {
                                let j = choose|j: int|
                                    0 <= j < i && hit_counts(#[trigger] ds[j], capped) && ds[j].attacker.account == k
                                        && hit_time(rows, ds[j]) is Some;
                                assert(has_series(ds, rows, capped, k, i + 1));
                            }
                        }
                        assert forall|k: u32| #[trigger] m1.contains_key(k) implies m1[k] =~= m[k] by {}
                    }
                },
            }
            assert forall|k: u32| #[trigger] m1.contains_key(k) implies m1[k].len() == n by {}
            i += 1;
        }
        out
    }
}

// ---------------------------------------------------------------------------
// Players
// ---------------------------------------------------------------------------

/// A player as the analysis shows them.
#[derive(Debug, Clone)]
pub struct Player {
    pub account_id: u32,
    /// The name logs.tf gave, else the SteamID3.
    pub name: String,
    /// The stable team, whatever colour a stopwatch half wore.
    pub team: Team,
    pub main_class: Option<TfClass>,
    pub is_me: bool,
}

pub open spec fn player_spec(p: PlayerLine, me: Option<SteamId>) -> (u32, Seq<char>, Team, Option<TfClass>, bool) {
    (
        p.id@,
        match p.name {
            Some(n) => n@,
            None => steamid3_text(p.id@),
        },
        p.team,
        match longest(p.classes@, p.classes@.len() as int) {
            Some(i) => Some(p.classes@[i].class),
            None => None,
        },
        match me {
            Some(m) => m@ == p.id@,
            None => false,
        },
    )
}

pub open spec fn player_view(p: Player) -> (u32, Seq<char>, Team, Option<TfClass>, bool) {
    (p.account_id, p.name@, p.team, p.main_class, p.is_me)
}

/// The log's players, in its order: name (else SteamID3), stable team,
/// main class, and whether the player is the owner `me`.
pub fn players(log: &NormalizedLog, me: Option<SteamId>) -> (r: Vec<Player>)
    ensures
        r@.len() == log.players@.len(),
        forall|k: int| 0 <= k < r@.len() ==> player_view(#[trigger] r@[k]) == player_spec(log.players@[k], me),
{
    let mut out: Vec<Player> = Vec::new();
    let mut k: usize = 0;
    while k < log.players.len()
        invariant
            k <= log.players@.len(),
            out@.len() == k,
            forall|q: int| 0 <= q < k ==> player_view(#[trigger] out@[q]) == player_spec(log.players@[q], me),
        decreases log.players@.len() - k,
    {
        let p = &log.players[k];
        let name = match &p.name {
            Some(n) => crate::text::string_of(crate::text::chars_of(n.as_str()).as_slice()),
            None => p.id.to_steamid3(),
        };
        let is_me = match me {
            Some(m) => m.account_id() == p.id.account_id(),
            None => false,
        };
        let pl = Player { account_id: p.id.account_id(), name, team: p.team, main_class: p.main_class(), is_me };
        assert(player_view(pl) == player_spec(log.players@[k as int], me));
        let ghost before = out@;
        out.push(pl);
        assert forall|q: int| 0 <= q < k + 1 implies player_view(#[trigger] out@[q]) == player_spec(log.players@[q], me) by {
            if q < k {
                assert(out@[q] == before[q]);
            }
        }
        k += 1;
    }
    out
}

// ---------------------------------------------------------------------------
// Play-by-play
// ---------------------------------------------------------------------------

/// A moment of the play-by-play: an uber, a drop, a capture, a chat line or
/// a killstreak.
#[derive(Debug, Clone)]
pub struct PlayEvent {
    pub t: i128,
    pub round_num: i64,
    /// `charge`, `drop`, `pointcap`, `chat`, `streak`.
    pub kind: String,
    pub team: Option<Team>,
    pub player: Option<u32>,
    /// Chat text, the medigun, the point number, or the streak length.
    pub text: Option<String>,
    /// A streak's victims, in order.
    pub victims: Vec<u32>,
    pub team_chat: bool,
}

pub type EventV = (int, i64, Seq<char>, Option<Team>, Option<u32>, Option<Seq<char>>, Seq<u32>, bool);

pub open spec fn event_view(e: PlayEvent) -> EventV {
    (e.t as int, e.round_num, e.kind@, e.team, e.player, text_of(e.text), e.victims@, e.team_chat)
}

pub open spec fn events_view(v: Seq<PlayEvent>) -> Seq<EventV> {
    v.map_values(|e: PlayEvent| event_view(e))
}

/// The kinds of logs.tf round event the play-by-play shows.
pub open spec fn shown_kind(k: Seq<char>) -> bool {
    k == "charge"@ || k == "drop"@ || k == "pointcap"@
}

/// The first `n` events of a round that started at `s`, as play-by-play.
pub open spec fn round_part(es: Seq<EventView>, s: i64, rows: Seq<(i64, i64, i64, int)>, n: int) -> Seq<EventV>
    decreases n,
{
    if n <= 0 {
        Seq::empty()
    } else {
        let prev = round_part(es, s, rows, n - 1);
        let e = es[n - 1];
        if shown_kind(e.kind) {
            match game_spec(rows, s + e.at_s) {
                Some((t, r)) => prev.push(
                    (
                        t,
                        r,
                        e.kind,
                        e.team,
                        e.player,
                        match e.medigun {
                            Some(m) => Some(m),
                            None => match e.point {
                                Some(p) => Some(idec(p as int)),
                                None => None,
                            },
                        },
                        Seq::empty(),
                        false,
                    ),
                ),
                None => prev,
            }
        } else {
            prev
        }
    }
}

pub open spec fn round_events(rs: Seq<RoundLine>, rows: Seq<(i64, i64, i64, int)>, n: int) -> Seq<EventV>
    decreases n,
{
    if n <= 0 {
        Seq::empty()
    } else {
        let r = rs[n - 1];
        round_events(rs, rows, n - 1) + match r.start_time {
            Some(s) => round_part(r.events@.map_values(|e: EventLine| e@), s, rows, r.events@.len() as int),
            None => Seq::empty(),
        }
    }
}

/// The team of account `a` among the first `n` players (the last listed
/// counts).
pub open spec fn team_upto(ps: Seq<PlayerLine>, a: u32, n: int) -> Option<Team>
    decreases n,
{
    if n <= 0 {
        None
    } else if ps[n - 1].id@ == a {
        Some(ps[n - 1].team)
    } else {
        team_upto(ps, a, n - 1)
    }
}

pub open spec fn team_of(ps: Seq<PlayerLine>, a: Option<u32>) -> Option<Team> {
    match a {
        Some(x) => team_upto(ps, x, ps.len() as int),
        None => None,
    }
}

pub open spec fn chat_events(cs: Seq<ChatV>, ps: Seq<PlayerLine>, rows: Seq<(i64, i64, i64, int)>, n: int) -> Seq<EventV>
    decreases n,
{
    if n <= 0 {
        Seq::empty()
    } else {
        let prev = chat_events(cs, ps, rows, n - 1);
        let c = cs[n - 1];
        match game_spec(rows, c.at as int) {
            Some((t, r)) => prev.push(
                (t, r, "chat"@, team_of(ps, c.account), c.account, Some(c.message), Seq::empty(), c.team_chat),
            ),
            None => prev,
        }
    }
}

/// A killstreak as play-by-play, at its last kill.
pub open spec fn streak_event(
    s: (u32, Seq<int>),
    placed: Seq<(int, int, i64)>,
    ks: Seq<KillV>,
    ps: Seq<PlayerLine>,
) -> EventV {
    let last = placed[s.1.last()];
    (
        last.1,
        last.2,
        "streak"@,
        team_of(ps, Some(s.0)),
        Some(s.0),
        Some(idec(s.1.len() as int)),
        s.1.map_values(|k: int| ks[placed[k].0].victim.account),
        false,
    )
}

pub open spec fn placed_pairs(placed: Seq<(int, int, i64)>, ks: Seq<KillV>) -> Seq<(u32, u32)> {
    placed.map_values(|p: (int, int, i64)| (ks[p.0].killer.account, ks[p.0].victim.account))
}

/// The play-by-play before sorting: logs.tf's ubers, drops and captures
/// round by round, the chat, then the killstreaks.
pub open spec fn play_unsorted(log_rounds: Seq<RoundLine>, ps: Seq<PlayerLine>, cs: Seq<ChatV>, ks: Seq<KillV>, rows: Seq<(i64, i64, i64, int)>) -> Seq<EventV> {
    let placed = kills_on_clock_spec(ks, rows);
    round_events(log_rounds, rows, log_rounds.len() as int) + chat_events(cs, ps, rows, cs.len() as int)
        + streaks_spec(placed_pairs(placed, ks)).map_values(|s: (u32, Seq<int>)| streak_event(s, placed, ks, ps))
}

/// The play-by-play in game-time order, events at the same moment in the
/// order above.
pub open spec fn play_spec(log_rounds: Seq<RoundLine>, ps: Seq<PlayerLine>, cs: Seq<ChatV>, ks: Seq<KillV>, rows: Seq<(i64, i64, i64, int)>) -> Seq<EventV> {
    let u = play_unsorted(log_rounds, ps, cs, ks, rows);
    let ord = by_key(u.map_values(|e: EventV| e.0), u.len() as int);
    Seq::new(ord.len(), |k: int| u[ord[k]])
}

/// Whether the play-by-play `v` holds a moment at game time `t` in round
/// `r` of kind `kind`, for `team` and `player`.
pub open spec fn shows(v: Seq<EventV>, t: int, r: i64, kind: Seq<char>, team: Option<Team>, player: Option<u32>) -> bool {
    exists|k: int|
        0 <= k < v.len() && (#[trigger] v[k]).0 == t && v[k].1 == r && v[k].2 == kind && v[k].3 == team
            && v[k].4 == player
}

proof fn lemma_round_part_shows(es: Seq<EventView>, s: i64, rows: Seq<(i64, i64, i64, int)>, m: int, j: int)
    requires
        0 <= j < m <= es.len(),
        es[j].kind == "charge"@ || es[j].kind == "drop"@ || es[j].kind == "pointcap"@,
        game_spec(rows, s + es[j].at_s) is Some,
    ensures
        shows(
            round_part(es, s, rows, m),
            game_spec(rows, s + es[j].at_s).unwrap().0,
            game_spec(rows, s + es[j].at_s).unwrap().1,
            es[j].kind,
            es[j].team,
            es[j].player,
        ),
    decreases m,
{
    let (t, r) = game_spec(rows, s + es[j].at_s)->0;
    let v = round_part(es, s, rows, m);
    if j == m - 1 {
        assert(shown_kind(es[j].kind));
        let k = v.len() - 1;
        assert(v[k].0 == t && v[k].1 == r);
    } else {
        lemma_round_part_shows(es, s, rows, m - 1, j);
        let prev = round_part(es, s, rows, m - 1);
        let k = choose|k: int|
            0 <= k < prev.len() && (#[trigger] prev[k]).0 == t && prev[k].1 == r && prev[k].2
                == es[j].kind && prev[k].3 == es[j].team && prev[k].4 == es[j].player;
        assert(v[k] == prev[k]);
    }
}

proof fn lemma_round_events_show(rs: Seq<RoundLine>, rows: Seq<(i64, i64, i64, int)>, n: int, i: int, j: int)
    requires
        0 <= i < n <= rs.len(),
        rs[i].start_time is Some,
        0 <= j < rs[i].events@.len(),
        rs[i].events@[j]@.kind == "charge"@ || rs[i].events@[j]@.kind == "drop"@
            || rs[i].events@[j]@.kind == "pointcap"@,
        game_spec(rows, rs[i].start_time->0 + rs[i].events@[j].at_s) is Some,
    ensures
        shows(
            round_events(rs, rows, n),
            game_spec(rows, rs[i].start_time->0 + rs[i].events@[j].at_s).unwrap().0,
            game_spec(rows, rs[i].start_time->0 + rs[i].events@[j].at_s).unwrap().1,
            rs[i].events@[j]@.kind,
            rs[i].events@[j]@.team,
            rs[i].events@[j]@.player,
        ),
    decreases n,
{
    let e = rs[i].events@[j]@;
    let (t, r) = game_spec(rows, rs[i].start_time->0 + rs[i].events@[j].at_s)->0;
    let prev = round_events(rs, rows, n - 1);
    let v = round_events(rs, rows, n);
    if i == n - 1 {
        let es = rs[i].events@.map_values(|x: EventLine| x@);
        let s = rs[i].start_time->0;
        assert(es[j] == e);
        lemma_round_part_shows(es, s, rows, es.len() as int, j);
        let part = round_part(es, s, rows, es.len() as int);
        assert(v == prev + part);
        let k = choose|k: int|
            0 <= k < part.len() && (#[trigger] part[k]).0 == t && part[k].1 == r && part[k].2 == e.kind
                && part[k].3 == e.team && part[k].4 == e.player;
        assert(v[prev.len() + k] == part[k]);
    } else {
        lemma_round_events_show(rs, rows, n - 1, i, j);
        let k = choose|k: int|
            0 <= k < prev.len() && (#[trigger] prev[k]).0 == t && prev[k].1 == r && prev[k].2 == e.kind
                && prev[k].3 == e.team && prev[k].4 == e.player;
        assert(v[k] == prev[k]);
    }
}

/// Every uber, drop and capture logs.tf records in a round with a start
/// time shows in the play-by-play when it falls on the game clock: at its
/// game time and round, with its kind, team and player.
pub proof fn lemma_round_events_in_play_by_play(
    log_rounds: Seq<RoundLine>,
    ps: Seq<PlayerLine>,
    cs: Seq<ChatV>,
    ks: Seq<KillV>,
    rows: Seq<(i64, i64, i64, int)>,
    i: int,
    j: int,
)
    requires
        0 <= i < log_rounds.len(),
        0 <= j < log_rounds[i].events@.len(),
        log_rounds[i].events@[j]@.kind == "charge"@ || log_rounds[i].events@[j]@.kind == "drop"@
            || log_rounds[i].events@[j]@.kind == "pointcap"@,
    ensures
        log_rounds[i].start_time matches Some(s) ==> (game_spec(rows, s + log_rounds[i].events@[j].at_s) matches Some(
            (t, r),
        ) ==> shows(
            play_spec(log_rounds, ps, cs, ks, rows),
            t,
            r,
            log_rounds[i].events@[j]@.kind,
            log_rounds[i].events@[j]@.team,
            log_rounds[i].events@[j]@.player,
        )),
{
    if let Some(s) = log_rounds[i].start_time {
        if let Some((t, r)) = game_spec(rows, s + log_rounds[i].events@[j].at_s) {
            let e = log_rounds[i].events@[j]@;
            lemma_round_events_show(log_rounds, rows, log_rounds.len() as int, i, j);
            let re = round_events(log_rounds, rows, log_rounds.len() as int);
            let u = play_unsorted(log_rounds, ps, cs, ks, rows);
            let placed = kills_on_clock_spec(ks, rows);
            assert(u == re + chat_events(cs, ps, rows, cs.len() as int) + streaks_spec(
                placed_pairs(placed, ks),
            ).map_values(|x: (u32, Seq<int>)| streak_event(x, placed, ks, ps)));
            let k = choose|k: int|
                0 <= k < re.len() && (#[trigger] re[k]).0 == t && re[k].1 == r && re[k].2 == e.kind
                    && re[k].3 == e.team && re[k].4 == e.player;
            assert(u[k] == re[k]);
            lemma_unsorted_in_play(log_rounds, ps, cs, ks, rows, k);
        }
    }
}

proof fn lemma_unsorted_in_play(
    log_rounds: Seq<RoundLine>,
    ps: Seq<PlayerLine>,
    cs: Seq<ChatV>,
    ks: Seq<KillV>,
    rows: Seq<(i64, i64, i64, int)>,
    k: int,
)
    requires
        0 <= k < play_unsorted(log_rounds, ps, cs, ks, rows).len(),
    ensures
        exists|q: int|
            0 <= q < play_spec(log_rounds, ps, cs, ks, rows).len() && #[trigger] play_spec(
                log_rounds,
                ps,
                cs,
                ks,
                rows,
            )[q] == play_unsorted(log_rounds, ps, cs, ks, rows)[k],
{
    let u = play_unsorted(log_rounds, ps, cs, ks, rows);
    let keys = u.map_values(|x: EventV| x.0);
    lemma_by_key(keys, u.len() as int);
    let ord = by_key(keys, u.len() as int);
    assert(ord.contains(k));
    let q = choose|q: int| 0 <= q < ord.len() && ord[q] == k;
    let play = play_spec(log_rounds, ps, cs, ks, rows);
    assert(play[q] == u[k]);
}

proof fn lemma_chat_events_show(cs: Seq<ChatV>, ps: Seq<PlayerLine>, rows: Seq<(i64, i64, i64, int)>, n: int, i: int)
    requires
        0 <= i < n <= cs.len(),
        game_spec(rows, cs[i].at as int) is Some,
    ensures
        shows(
            chat_events(cs, ps, rows, n),
            game_spec(rows, cs[i].at as int).unwrap().0,
            game_spec(rows, cs[i].at as int).unwrap().1,
            "chat"@,
            team_of(ps, cs[i].account),
            cs[i].account,
        ),
    decreases n,
{
    let (t, r) = game_spec(rows, cs[i].at as int)->0;
    let v = chat_events(cs, ps, rows, n);
    if i == n - 1 {
        let k = v.len() - 1;
        assert(v[k].0 == t && v[k].1 == r);
    } else {
        lemma_chat_events_show(cs, ps, rows, n - 1, i);
        let prev = chat_events(cs, ps, rows, n - 1);
        let k = choose|k: int|
            0 <= k < prev.len() && (#[trigger] prev[k]).0 == t && prev[k].1 == r && prev[k].2 == "chat"@
                && prev[k].3 == team_of(ps, cs[i].account) && prev[k].4 == cs[i].account;
        assert(v[k] == prev[k]);
    }
}

/// Every chat line that falls on the game clock shows in the play-by-play
/// as `chat`, at its game time and round, by its speaker and the speaker's
/// team.
pub proof fn lemma_chat_in_play_by_play(
    log_rounds: Seq<RoundLine>,
    ps: Seq<PlayerLine>,
    cs: Seq<ChatV>,
    ks: Seq<KillV>,
    rows: Seq<(i64, i64, i64, int)>,
    i: int,
)
    requires
        0 <= i < cs.len(),
    ensures
        game_spec(rows, cs[i].at as int) matches Some((t, r)) ==> shows(
            play_spec(log_rounds, ps, cs, ks, rows),
            t,
            r,
            "chat"@,
            team_of(ps, cs[i].account),
            cs[i].account,
        ),
{
    if let Some((t, r)) = game_spec(rows, cs[i].at as int) {
        lemma_chat_events_show(cs, ps, rows, cs.len() as int, i);
        let re = round_events(log_rounds, rows, log_rounds.len() as int);
        let ch = chat_events(cs, ps, rows, cs.len() as int);
        let u = play_unsorted(log_rounds, ps, cs, ks, rows);
        let placed = kills_on_clock_spec(ks, rows);
        assert(u == re + ch + streaks_spec(placed_pairs(placed, ks)).map_values(
            |x: (u32, Seq<int>)| streak_event(x, placed, ks, ps),
        ));
        let k = choose|k: int|
            0 <= k < ch.len() && (#[trigger] ch[k]).0 == t && ch[k].1 == r && ch[k].2 == "chat"@ && ch[k].3
                == team_of(ps, cs[i].account) && ch[k].4 == cs[i].account;
        assert(u[re.len() + k] == ch[k]);
        lemma_unsorted_in_play(log_rounds, ps, cs, ks, rows, re.len() + k);
    }
}

/// Every start plus event time fits `i64`.
pub open spec fn event_times_fit(rs: Seq<RoundLine>) -> bool {
    forall|i: int, j: int|
        0 <= i < rs.len() && 0 <= j < rs[i].events@.len() ==> (#[trigger] rs[i].start_time matches Some(s) ==> i64::MIN
            <= s + (#[trigger] rs[i].events@[j]).at_s <= i64::MAX)
}

fn copy_string(s: &String) -> (r: String)
    ensures
        r@ == s@,
{
    string_of(chars_of(s.as_str()).as_slice())
}

fn copy_event(e: &PlayEvent) -> (r: PlayEvent)
    ensures
        event_view(r) == event_view(*e),
{
    let mut victims: Vec<u32> = Vec::new();
    let mut i: usize = 0;
    while i < e.victims.len()
        invariant
            i <= e.victims@.len(),
            victims@ == e.victims@.take(i as int),
        decreases e.victims@.len() - i,
    {
        victims.push(e.victims[i]);
        assert(e.victims@.take(i + 1) =~= e.victims@.take(i as int).push(e.victims@[i as int]));
        i += 1;
    }
    assert(e.victims@.take(e.victims@.len() as int) =~= e.victims@);
    PlayEvent {
        t: e.t,
        round_num: e.round_num,
        kind: copy_string(&e.kind),
        team: e.team,
        player: e.player,
        text: match &e.text {
            Some(x) => Some(copy_string(x)),
            None => None,
        },
        victims,
        team_chat: e.team_chat,
    }
}

fn team_in(ps: &[PlayerLine], a: Option<u32>) -> (r: Option<Team>)
    ensures
        r == team_of(ps@, a),
{
    let x = match a {
        Some(x) => x,
        None => return None,
    };
    let mut n: usize = ps.len();
    while n > 0
        invariant
            a == Some(x),
            n <= ps@.len(),
            team_upto(ps@, x, ps@.len() as int) == team_upto(ps@, x, n as int),
        decreases n,
    {
        if ps[n - 1].id.account_id() == x {
            assert(ps@[n - 1].id@ == x);
            return Some(ps[n - 1].team);
        }
        n -= 1;
    }
    None
}

fn text_eq(s: &String, lit: &str) -> (b: bool)
    ensures
        b == (s@ == lit@),
{
    same(chars_of(s.as_str()).as_slice(), chars_of(lit).as_slice())
}

impl Clock {
    /// The play-by-play of a match on this clock: logs.tf's ubers, drops
    /// and captures, the chat, and the killstreaks, in game-time order.
    pub fn play_by_play(&self, log: &NormalizedLog, chat: &[Chat], kills: &[Kill]) -> (r: Vec<PlayEvent>)
        requires
            clock_ok(self.rounds@),
            event_times_fit(log.rounds@),
        ensures
            events_view(r@) == play_spec(
                log.rounds@,
                log.players@,
                chat@.map_values(|c: Chat| c@),
                kills@.map_values(|k: Kill| k@),
                rows_view(self.rounds@),
            ),
    {
        let ghost rows = rows_view(self.rounds@);
        let ghost rs = log.rounds@;
        let ghost ps = log.players@;
        let ghost cs = chat@.map_values(|c: Chat| c@);
        let ghost ks = kills@.map_values(|k: Kill| k@);
        let mut all: Vec<PlayEvent> = Vec::new();
        // logs.tf's round events.
        let mut i: usize = 0;
        while i < log.rounds.len()
            invariant
                i <= rs.len(),
                rs == log.rounds@,
                rows == rows_view(self.rounds@),
                clock_ok(self.rounds@),
                event_times_fit(log.rounds@),
                events_view(all@) == round_events(rs, rows, i as int),
            decreases rs.len() - i,
        {
            let r = &log.rounds[i];
            let ghost base = events_view(all@);
            match r.start_time {
                Some(s) => {
                    let ghost es = r.events@.map_values(|e: EventLine| e@);
                    let mut j: usize = 0;
                    while j < r.events.len()
                        invariant
                            i < rs.len(),
                            rs == log.rounds@,
                            *r == rs[i as int],
                            r.start_time == Some(s),
                            j <= r.events@.len(),
                            es == r.events@.map_values(|e: EventLine| e@),
                            rows == rows_view(self.rounds@),
                            clock_ok(self.rounds@),
                            event_times_fit(log.rounds@),
                            events_view(all@) == base + round_part(es, s, rows, j as int),
                        decreases r.events@.len() - j,
                    {
                        let e = &r.events[j];
                        assert(es[j as int] == e@);
                        assert(i64::MIN <= s + e.at_s <= i64::MAX) by {
                            assert(rs[i as int].events@[j as int] == *e);
                        }
                        let shown = text_eq(&e.kind, "charge") || text_eq(&e.kind, "drop") || text_eq(&e.kind, "pointcap");
                        if shown {
                            match self.game(s + e.at_s) {
                                Some((t, rn)) => {
                                    let text = match &e.medigun {
                                        Some(m) => Some(copy_string(m)),
                                        None => match e.point {
                                            Some(p) => {
                                                let mut c: Vec<char> = Vec::new();
                                                push_signed(&mut c, p);
                                                assert(c@ =~= idec(p as int));
                                                Some(string_of(c.as_slice()))
                                            },
                                            None => None,
                                        },
                                    };
                                    let ev = PlayEvent {
                                        t,
                                        round_num: rn,
                                        kind: copy_string(&e.kind),
                                        team: e.team,
                                        player: match e.player {
                                            Some(id) => Some(id.account_id()),
                                            None => None,
                                        },
                                        text,
                                        victims: Vec::new(),
                                        team_chat: false,
                                    };
                                    let ghost before = events_view(all@);
                                    all.push(ev);
                                    assert(event_view(ev).6 =~= Seq::<u32>::empty());
                                    assert(events_view(all@) =~= before.push(event_view(ev)));
                                    assert(base + round_part(es, s, rows, j + 1) =~= (base + round_part(
                                        es,
                                        s,
                                        rows,
                                        j as int,
                                    )).push(event_view(ev)));
                                },
                                None => {},
                            }
                        }
                        j += 1;
                    }
                    assert(events_view(all@) =~= round_events(rs, rows, i + 1));
                },
                None => {
                    assert(events_view(all@) =~= round_events(rs, rows, i + 1));
                },
            }
            i += 1;
        }
        let ghost part1 = events_view(all@);
        // The chat.
        let mut i: usize = 0;
        while i < chat.len()
            invariant
                i <= cs.len(),
                cs == chat@.map_values(|c: Chat| c@),
                ps == log.players@,
                rows == rows_view(self.rounds@),
                clock_ok(self.rounds@),
                events_view(all@) == part1 + chat_events(cs, ps, rows, i as int),
            decreases cs.len() - i,
        {
            let c = &chat[i];
            assert(cs[i as int] == c@);
            match self.game(c.at) {
                Some((t, rn)) => {
                    let ev = PlayEvent {
                        t,
                        round_num: rn,
                        kind: string_of(chars_of("chat").as_slice()),
                        team: team_in(log.players.as_slice(), c.account),
                        player: c.account,
                        text: Some(copy_string(&c.message)),
                        victims: Vec::new(),
                        team_chat: c.team_chat,
                    };
                    let ghost before = events_view(all@);
                    all.push(ev);
                    assert(event_view(ev).6 =~= Seq::<u32>::empty());
                    assert(events_view(all@) =~= before.push(event_view(ev)));
                    assert(part1 + chat_events(cs, ps, rows, i + 1) =~= (part1 + chat_events(
                        cs,
                        ps,
                        rows,
                        i as int,
                    )).push(event_view(ev)));
                },
                None => {},
            }
            i += 1;
        }
        let ghost part2 = events_view(all@);
        // The killstreaks.
        let placed = self.kills_on_clock(kills);
        let ghost pv = placed@.map_values(|p: PlacedKill| placed_view(p));
        assert(pv == kills_on_clock_spec(ks, rows));
        let mut pairs: Vec<(u32, u32)> = Vec::new();
        let mut i: usize = 0;
        while i < placed.len()
            invariant
                i <= placed@.len(),
                pv == placed@.map_values(|p: PlacedKill| placed_view(p)),
                ks == kills@.map_values(|k: Kill| k@),
                forall|q: int| 0 <= q < placed@.len() ==> (#[trigger] placed@[q]).index < kills@.len(),
                pairs@ == placed_pairs(pv, ks).take(i as int),
            decreases placed@.len() - i,
        {
            let k = &kills[placed[i].index];
            pairs.push((k.killer.account, k.victim.account));
            assert(placed_pairs(pv, ks).take(i + 1) =~= placed_pairs(pv, ks).take(i as int).push(
                placed_pairs(pv, ks)[i as int],
            ));
            i += 1;
        }
        assert(pairs@ =~= placed_pairs(pv, ks));
        let found = streaks(pairs.as_slice());
        let ghost sv = streaks_view(found@);
        proof {
            lemma_streaks_long(pairs@);
        }
        let mut i: usize = 0;
        while i < found.len()
            invariant
                i <= found@.len(),
                sv == streaks_view(found@),
                sv == streaks_spec(pairs@),
                pairs@ == placed_pairs(pv, ks),
                pairs@.len() == placed@.len(),
                pv == placed@.map_values(|p: PlacedKill| placed_view(p)),
                pv == kills_on_clock_spec(ks, rows),
                ks == kills@.map_values(|k: Kill| k@),
                ps == log.players@,
                forall|q: int| 0 <= q < placed@.len() ==> (#[trigger] placed@[q]).index < kills@.len(),
                forall|q: int|
                    0 <= q < sv.len() ==> (#[trigger] sv[q]).1.len() >= 3 && forall|x: int|
                        0 <= x < sv[q].1.len() ==> 0 <= #[trigger] sv[q].1[x] < pairs@.len(),
                events_view(all@) == part2 + sv.take(i as int).map_values(
                    |s: (u32, Seq<int>)| streak_event(s, pv, ks, ps),
                ),
            decreases found@.len() - i,
        {
            let st = &found[i];
            assert(sv[i as int] == streak_view(*st));
            let n = st.kills.len();
            assert(sv[i as int].1.len() == n);
            assert(sv[i as int].1[n - 1] == st.kills@[n - 1] as int);
            assert(sv[i as int].1[n - 1] < pairs@.len());
            let last = placed[st.kills[n - 1]];
            let mut victims: Vec<u32> = Vec::new();
            let mut j: usize = 0;
            while j < n
                invariant
                    j <= n,
                    n == st.kills@.len(),
                    sv[i as int] == streak_view(*st),
                    i < sv.len(),
                    forall|x: int| 0 <= x < sv[i as int].1.len() ==> 0 <= #[trigger] sv[i as int].1[x] < pairs@.len(),
                    pairs@.len() == placed@.len(),
                    pv == placed@.map_values(|p: PlacedKill| placed_view(p)),
                    ks == kills@.map_values(|k: Kill| k@),
                    forall|q: int| 0 <= q < placed@.len() ==> (#[trigger] placed@[q]).index < kills@.len(),
                    victims@ == sv[i as int].1.take(j as int).map_values(|k: int| ks[pv[k].0].victim.account),
                decreases n - j,
            {
                let x = st.kills[j];
                assert(sv[i as int].1[j as int] == x as int);
                let v = kills[placed[x].index].victim.account;
                assert(pv[x as int].0 == placed@[x as int].index as int);
                assert(ks[placed@[x as int].index as int] == kills@[placed@[x as int].index as int]@);
                victims.push(v);
                assert(sv[i as int].1.take(j + 1).map_values(|k: int| ks[pv[k].0].victim.account) =~= sv[i as int].1.take(
                    j as int,
                ).map_values(|k: int| ks[pv[k].0].victim.account).push(v));
                j += 1;
            }
            assert(sv[i as int].1.take(n as int) =~= sv[i as int].1);
            let mut c: Vec<char> = Vec::new();
            push_decimal(&mut c, n as u64);
            assert(c@ =~= idec(n as int));
            let ev = PlayEvent {
                t: last.t,
                round_num: last.round_num,
                kind: string_of(chars_of("streak").as_slice()),
                team: team_in(log.players.as_slice(), Some(st.player)),
                player: Some(st.player),
                text: Some(string_of(c.as_slice())),
                victims,
                team_chat: false,
            };
            assert(pv[st.kills@[n - 1] as int] == placed_view(last));
            assert(event_view(ev) == streak_event(sv[i as int], pv, ks, ps));
            let ghost before = events_view(all@);
            all.push(ev);
            assert(events_view(all@) =~= before.push(event_view(ev)));
            assert(sv.take(i + 1).map_values(|s: (u32, Seq<int>)| streak_event(s, pv, ks, ps)) =~= sv.take(
                i as int,
            ).map_values(|s: (u32, Seq<int>)| streak_event(s, pv, ks, ps)).push(streak_event(sv[i as int], pv, ks, ps)));
            i += 1;
        }
        assert(sv.take(sv.len() as int) =~= sv);
        assert(events_view(all@) =~= play_unsorted(rs, ps, cs, ks, rows));
        sorted_events(&all)
    }
}

/// Every killstreak has at least three kills, each a place in the list.
pub proof fn lemma_streaks_long(ks: Seq<(u32, u32)>)
    ensures
        forall|q: int|
            0 <= q < streaks_spec(ks).len() ==> (#[trigger] streaks_spec(ks)[q]).1.len() >= 3 && forall|x: int|
                0 <= x < streaks_spec(ks)[q].1.len() ==> 0 <= #[trigger] streaks_spec(ks)[q].1[x] < ks.len(),
{
    lemma_ended_long(ks, ks.len() as int);
    lemma_open_end_long(ks, ks.len() as int);
    let a = ended_runs(ks, ks.len() as int);
    let b = open_at_end(ks, ks.len() as int);
    assert forall|q: int| 0 <= q < streaks_spec(ks).len() implies (#[trigger] streaks_spec(ks)[q]).1.len() >= 3
        && forall|x: int| 0 <= x < streaks_spec(ks)[q].1.len() ==> 0 <= #[trigger] streaks_spec(ks)[q].1[x] < ks.len() by {
        if q < a.len() {
            assert(streaks_spec(ks)[q] == a[q]);
        } else {
            assert(streaks_spec(ks)[q] == b[q - a.len()]);
        }
    }
}

pub proof fn lemma_open_run_bounds(ks: Seq<(u32, u32)>, p: u32, j: int)
    requires
        0 <= j <= ks.len(),
    ensures
        forall|x: int| 0 <= x < open_run(ks, p, j).len() ==> 0 <= #[trigger] open_run(ks, p, j)[x] < j,
    decreases j,
{
    if j > 0 {
        lemma_open_run_bounds(ks, p, j - 1);
        let prev = open_run(ks, p, j - 1);
        let k = ks[j - 1];
        let kept = if k.1 == p {
            Seq::<int>::empty()
        } else {
            prev
        };
        assert forall|x: int| 0 <= x < kept.len() implies 0 <= #[trigger] kept[x] < j - 1 by {}
        if k.0 == p {
            assert(open_run(ks, p, j) == kept.push(j - 1));
            assert forall|x: int| 0 <= x < kept.push(j - 1).len() implies 0 <= #[trigger] kept.push(j - 1)[x] < j by {
                if x < kept.len() {
                    assert(kept.push(j - 1)[x] == kept[x]);
                }
            }
        } else {
            assert(open_run(ks, p, j) == kept);
        }
    }
}

pub proof fn lemma_ended_long(ks: Seq<(u32, u32)>, j: int)
    requires
        0 <= j <= ks.len(),
    ensures
        forall|q: int|
            0 <= q < ended_runs(ks, j).len() ==> (#[trigger] ended_runs(ks, j)[q]).1.len() >= 3 && forall|x: int|
                0 <= x < ended_runs(ks, j)[q].1.len() ==> 0 <= #[trigger] ended_runs(ks, j)[q].1[x] < ks.len(),
    decreases j,
{
    if j > 0 {
        lemma_ended_long(ks, j - 1);
        let e = ended_runs(ks, j - 1);
        let v = ks[j - 1].1;
        let run = open_run(ks, v, j - 1);
        lemma_open_run_bounds(ks, v, j - 1);
        if run.len() >= 3 {
            assert(ended_runs(ks, j) == e.push((v, run)));
            assert forall|q: int| 0 <= q < e.push((v, run)).len() implies (#[trigger] e.push((v, run))[q]).1.len() >= 3
                && forall|x: int| 0 <= x < e.push((v, run))[q].1.len() ==> 0 <= #[trigger] e.push((v, run))[q].1[x] < ks.len() by {
                if q < e.len() {
                    assert(e.push((v, run))[q] == e[q]);
                }
            }
        } else {
            assert(ended_runs(ks, j) == e);
        }
    }
}

pub proof fn lemma_open_end_long(ks: Seq<(u32, u32)>, i: int)
    requires
        0 <= i <= ks.len(),
    ensures
        forall|q: int|
            0 <= q < open_at_end(ks, i).len() ==> (#[trigger] open_at_end(ks, i)[q]).1.len() >= 3 && forall|x: int|
                0 <= x < open_at_end(ks, i)[q].1.len() ==> 0 <= #[trigger] open_at_end(ks, i)[q].1[x] < ks.len(),
    decreases i,
{
    if i > 0 {
        lemma_open_end_long(ks, i - 1);
        let e = open_at_end(ks, i - 1);
        let p = ks[i - 1].0;
        let run = open_run(ks, p, ks.len() as int);
        lemma_open_run_bounds(ks, p, ks.len() as int);
        if run.len() >= 3 && run.last() == i - 1 {
            assert(open_at_end(ks, i) == e.push((p, run)));
            assert forall|q: int| 0 <= q < e.push((p, run)).len() implies (#[trigger] e.push((p, run))[q]).1.len() >= 3
                && forall|x: int| 0 <= x < e.push((p, run))[q].1.len() ==> 0 <= #[trigger] e.push((p, run))[q].1[x] < ks.len() by {
                if q < e.len() {
                    assert(e.push((p, run))[q] == e[q]);
                }
            }
        } else {
            assert(open_at_end(ks, i) == e);
        }
    }
}

/// The events in game-time order, events at the same moment in their
/// given order.
fn sorted_events(all: &Vec<PlayEvent>) -> (r: Vec<PlayEvent>)
    ensures
        events_view(r@) == {
            let u = events_view(all@);
            let ord = by_key(u.map_values(|e: EventV| e.0), u.len() as int);
            Seq::new(ord.len(), |k: int| u[ord[k]])
        },
{
    let ghost u = events_view(all@);
    let ghost keys = u.map_values(|e: EventV| e.0);
    let mut times: Vec<i128> = Vec::new();
    let mut i: usize = 0;
    while i < all.len()
        invariant
            i <= all@.len(),
            u == events_view(all@),
            keys == u.map_values(|e: EventV| e.0),
            keys_view(times@) == keys.take(i as int),
            times@.len() == i,
        decreases all@.len() - i,
    {
        assert(keys[i as int] == all@[i as int].t as int);
        times.push(all[i].t);
        assert(keys_view(times@) =~= keys.take(i + 1));
        i += 1;
    }
    assert(keys.take(all@.len() as int) =~= keys);
    let ord = stable_order(times.as_slice());
    let ghost ov = ord@.map_values(|j: usize| j as int);
    let mut out: Vec<PlayEvent> = Vec::new();
    let mut k: usize = 0;
    while k < ord.len()
        invariant
            k <= ord@.len(),
            ord@.len() == all@.len(),
            ov == ord@.map_values(|j: usize| j as int),
            u == events_view(all@),
            forall|q: int| 0 <= q < ord@.len() ==> #[trigger] ord@[q] < all@.len(),
            out@.len() == k,
            events_view(out@) == Seq::new(k as nat, |x: int| u[ov[x]]),
        decreases ord@.len() - k,
    {
        let j = ord[k];
        let e = copy_event(&all[j]);
        let ghost before = out@;
        out.push(e);
        assert(events_view(out@) =~= Seq::new((k + 1) as nat, |x: int| u[ov[x]])) by {
            assert forall|x: int| 0 <= x < k + 1 implies events_view(out@)[x] == u[ov[x]] by {
                if x < k {
                    assert(out@[x] == before[x]);
                    assert(events_view(before)[x] == event_view(before[x]));
                    assert(Seq::new(k as nat, |x: int| u[ov[x]])[x] == u[ov[x]]);
                }
            }
        }
        k += 1;
    }
    out
}

// ---------------------------------------------------------------------------
// First picks on the game clock
// ---------------------------------------------------------------------------

/// The first kill of a round, on the game clock.
#[derive(Debug, Clone, Copy, PartialEq, Eq)]
pub struct FirstPickView {
    pub t: i128,
    pub round_num: i64,
    /// Seconds after the round went live.
    pub after_s: i64,
    pub killer: u32,
    pub victim: u32,
}

/// The first of the raw log's kills from `k` on that is the pick: same raw
/// round, same killer and victim.
pub open spec fn pick_kill_from(ks: Seq<KillV>, f: FirstPick, k: int) -> Option<int>
    decreases ks.len() - k,
{
    if k < 0 || k >= ks.len() {
        None
    } else if ks[k].round == f.round && ks[k].killer.account == f.killer && ks[k].victim.account == f.victim {
        Some(k)
    } else {
        pick_kill_from(ks, f, k + 1)
    }
}

pub open spec fn pick_view(p: FirstPickView) -> (int, i64, i64, u32, u32) {
    (p.t as int, p.round_num, p.after_s, p.killer, p.victim)
}

/// The first picks among the first `n` that have their kill in the raw
/// log and fall in a round, placed on the game clock.
pub open spec fn picks_on_clock(fs: Seq<FirstPick>, ks: Seq<KillV>, rows: Seq<(i64, i64, i64, int)>, n: int) -> Seq<(int, i64, i64, u32, u32)>
    decreases n,
{
    if n <= 0 {
        Seq::empty()
    } else {
        let prev = picks_on_clock(fs, ks, rows, n - 1);
        let f = fs[n - 1];
        match pick_kill_from(ks, f, 0) {
            Some(k) => match game_spec(rows, ks[k].at as int) {
                Some((t, r)) => prev.push((t, r, f.after_s, f.killer, f.victim)),
                None => prev,
            },
            None => prev,
        }
    }
}

impl Clock {
    /// Each round's first pick on this clock, found again among the raw
    /// log's kills by round, killer and victim.
    pub fn first_picks(&self, picks: &[FirstPick], kills: &[Kill]) -> (r: Vec<FirstPickView>)
        requires
            clock_ok(self.rounds@),
        ensures
            r@.map_values(|p: FirstPickView| pick_view(p)) == picks_on_clock(
                picks@,
                kills@.map_values(|k: Kill| k@),
                rows_view(self.rounds@),
                picks@.len() as int,
            ),
    {
        let ghost ks = kills@.map_values(|k: Kill| k@);
        let ghost rows = rows_view(self.rounds@);
        let mut out: Vec<FirstPickView> = Vec::new();
        let mut i: usize = 0;
        while i < picks.len()
            invariant
                i <= picks@.len(),
                ks == kills@.map_values(|k: Kill| k@),
                rows == rows_view(self.rounds@),
                clock_ok(self.rounds@),
                out@.map_values(|p: FirstPickView| pick_view(p)) == picks_on_clock(picks@, ks, rows, i as int),
            decreases picks@.len() - i,
        {
            let f = &picks[i];
            let mut k: usize = 0;
            let mut found: Option<usize> = None;
            while k < kills.len()
                invariant_except_break
                    found is None,
                    pick_kill_from(ks, *f, 0) == pick_kill_from(ks, *f, k as int),
                invariant
                    k <= kills@.len(),
                    ks == kills@.map_values(|k: Kill| k@),
                ensures
                    found matches Some(j) ==> j < kills@.len() && pick_kill_from(ks, *f, 0) == Some(j as int),
                    found is None ==> pick_kill_from(ks, *f, 0) is None,
                decreases kills@.len() - k,
            {
                let x = &kills[k];
                assert(ks[k as int] == x@);
                if x.round == f.round && x.killer.account == f.killer && x.victim.account == f.victim {
                    found = Some(k);
                    break;
                }
                k += 1;
            }
            let ghost before = out@.map_values(|p: FirstPickView| pick_view(p));
            match found {
                Some(k) => {
                    assert(pick_kill_from(ks, *f, 0) == Some(k as int));
                    assert(ks[k as int] == kills@[k as int]@);
                    match self.game(kills[k].at) {
                        Some((t, rn)) => {
                            let ghost o = out@;
                            out.push(FirstPickView { t, round_num: rn, after_s: f.after_s, killer: f.killer, victim: f.victim });
                            assert(out@.map_values(|p: FirstPickView| pick_view(p)) =~= before.push(
                                (t as int, rn, f.after_s, f.killer, f.victim),
                            ));
                        },
                        None => {},
                    }
                },
                None => {
                    assert(pick_kill_from(ks, *f, 0) is None);
                },
            }
            i += 1;
        }
        out
    }
}

// ---------------------------------------------------------------------------
// The whole analysis
// ---------------------------------------------------------------------------

/// Everything the match page's analysis views draw, on game time.
#[derive(Debug, Clone)]
pub struct Analysis {
    pub log_id: i64,
    pub map: Option<String>,
    /// Game seconds: rounds end to end.
    pub duration_s: i128,
    /// Each timed round: number, where it starts and ends in game seconds.
    pub rounds: Vec<(i64, i128, i128)>,
    pub players: Vec<Player>,
    /// The counted kills inside rounds, in game-time order.
    pub kills: Vec<KillView>,
    pub damage: Vec<ClassDamage>,
    pub damage_series: Vec<(u32, Vec<i128>)>,
    pub events: Vec<PlayEvent>,
    /// Some counted kill in a round carries positions.
    pub has_positions: bool,
    /// logs.tf capped this log's hits; damage here follows it.
    pub damage_capped: bool,
    pub segments: Vec<MapSegment>,
    pub first_picks: Vec<FirstPickView>,
    /// Players alive, charges and uber advantage for each second of game
    /// time.
    pub state: StateSeries,
    /// Every player's kills in context.
    pub fights: Vec<FightStats>,
}

/// A counted kill on the game clock with its map and what it meant.
#[derive(Debug, Clone)]
pub struct KillView {
    /// Its place in the raw log's kill list.
    pub index: usize,
    pub t: i128,
    pub round_num: i64,
    /// The map of the kill's round: the round window's, else the log's.
    pub map: Option<String>,
    pub tags: Option<KillTags>,
}

pub type KillViewV = (int, int, i64, Option<Seq<char>>, Option<KillTags>);

pub open spec fn kill_view_v(k: KillView) -> KillViewV {
    (k.index as int, k.t as int, k.round_num, text_of(k.map), k.tags)
}

/// The map of the round holding `t`: the first round window holding it,
/// when it names one, else the log's own map.
pub open spec fn map_spec(windows: Seq<RoundWindow>, log_map: Option<String>, t: int) -> Option<Seq<char>> {
    match window_at(windows, t, 0) {
        Some(k) => match windows[k].map {
            Some(m) => Some(m@),
            None => text_of(log_map),
        },
        None => text_of(log_map),
    }
}

pub open spec fn windows_fit(windows: Seq<RoundWindow>) -> bool {
    forall|i: int| 0 <= i < windows.len() ==> i64::MIN <= #[trigger] windows[i].start + windows[i].length <= i64::MAX
}

/// Each placed kill with its map and tags.
fn kill_views(
    placed: &[PlacedKill],
    kills: &[Kill],
    windows: &[RoundWindow],
    log_map: &Option<String>,
    tags: &[Option<KillTags>],
) -> (r: Vec<KillView>)
    requires
        forall|x: int| 0 <= x < placed@.len() ==> (#[trigger] placed@[x]).index < kills@.len(),
        tags@.len() == kills@.len(),
        windows_fit(windows@),
    ensures
        r@.len() == placed@.len(),
        forall|q: int|
            0 <= q < r@.len() ==> kill_view_v(#[trigger] r@[q]) == (
                placed@[q].index as int,
                placed@[q].t as int,
                placed@[q].round_num,
                map_spec(windows@, *log_map, kills@[placed@[q].index as int].at as int),
                tags@[placed@[q].index as int],
            ),
{
    let mut out: Vec<KillView> = Vec::new();
    let mut q: usize = 0;
    while q < placed.len()
        invariant
            q <= placed@.len(),
            forall|x: int| 0 <= x < placed@.len() ==> (#[trigger] placed@[x]).index < kills@.len(),
            tags@.len() == kills@.len(),
            windows_fit(windows@),
            out@.len() == q,
            forall|x: int|
                0 <= x < q ==> kill_view_v(#[trigger] out@[x]) == (
                    placed@[x].index as int,
                    placed@[x].t as int,
                    placed@[x].round_num,
                    map_spec(windows@, *log_map, kills@[placed@[x].index as int].at as int),
                    tags@[placed@[x].index as int],
                ),
        decreases placed@.len() - q,
    {
        let p = placed[q];
        let at = kills[p.index].at;
        let map = match map_at(windows, at) {
            Some(m) => Some(string_of(chars_of(m).as_slice())),
            None => match log_map {
                Some(m) => Some(copy_string(m)),
                None => None,
            },
        };
        let v = KillView { index: p.index, t: p.t, round_num: p.round_num, map, tags: tags[p.index] };
        assert(kill_view_v(v).3 == map_spec(windows@, *log_map, at as int));
        let ghost before = out@;
        out.push(v);
        assert forall|x: int| 0 <= x < q + 1 implies kill_view_v(#[trigger] out@[x]) == (
            placed@[x].index as int,
            placed@[x].t as int,
            placed@[x].round_num,
            map_spec(windows@, *log_map, kills@[placed@[x].index as int].at as int),
            tags@[placed@[x].index as int],
        ) by {
            if x < q {
                assert(out@[x] == before[x]);
            }
        }
        q += 1;
    }
    out
}

/// What a log needs for its analysis: its round event times fit `i64` and
/// its damage timeline's buckets fit in memory.
pub open spec fn analysable(log: NormalizedLog, gs: GameState, kills: Seq<Kill>, fights: Fights, windows: Seq<RoundWindow>) -> bool {
    &&& fights.tags@.len() == kills.len()
    &&& windows_fit(windows)
    &&& event_times_fit(log.rounds@)
    &&& bucket_count(duration_spec(clock_rows(log.rounds@))) <= isize::MAX / 16
    &&& seconds(clock_rows(log.rounds@)) <= isize::MAX / 16
    &&& samplable(clock_rows(log.rounds@), gs)
}

pub open spec fn spans_out(v: Seq<(i64, i128, i128)>) -> Seq<(i64, int, int)> {
    v.map_values(|x: (i64, i128, i128)| (x.0, x.1 as int, x.2 as int))
}

pub open spec fn spans(rows: Seq<(i64, i64, i64, int)>) -> Seq<(i64, int, int)> {
    rows.map_values(|r: (i64, i64, i64, int)| (r.0, r.3, r.3 + r.2))
}

/// The analysis of a log from its normalized form, its raw log (already in
/// logs.tf's clock), the game state rebuilt from it and what its kills
/// meant, its round windows and stored map segments, for the owner `me`,
/// with hits capped as logs.tf capped them.
pub open spec fn analysis_ok(
    r: Analysis,
    log: NormalizedLog,
    gs: GameState,
    fights: Fights,
    kills: Seq<Kill>,
    chat: Seq<Chat>,
    damage: Seq<Damage>,
    windows: Seq<RoundWindow>,
    segments: Seq<SegmentIn>,
    me: Option<SteamId>,
    capped: bool,
) -> bool {
    let rows = clock_rows(log.rounds@);
    let ks = kills.map_values(|k: Kill| k@);
    let placed = kills_on_clock_spec(ks, rows);
    &&& r.log_id == log.log_id
    &&& text_of(r.map) == text_of(log.map)
    &&& r.duration_s == duration_spec(rows)
    &&& spans_out(r.rounds@) == spans(rows)
    &&& r.players@.len() == log.players@.len()
    &&& forall|k: int| 0 <= k < r.players@.len() ==> player_view(#[trigger] r.players@[k]) == player_spec(log.players@[k], me)
    &&& r.kills@.len() == placed.len()
    &&& forall|q: int|
        0 <= q < placed.len() ==> kill_view_v(#[trigger] r.kills@[q]) == (
            placed[q].0,
            placed[q].1,
            placed[q].2,
            map_spec(windows, log.map, ks[placed[q].0].at as int),
            fights.tags@[placed[q].0],
        )
    &&& damage_lines_ok(r.damage@, damage, rows, capped)
    &&& series_ok(r.damage_series@, damage, rows, capped)
    &&& events_view(r.events@) == play_spec(log.rounds@, log.players@, chat.map_values(|c: Chat| c@), ks, rows)
    &&& r.has_positions == exists|q: int| 0 <= q < placed.len() && (#[trigger] ks[placed[q].0]).killer_pos is Some
    &&& r.damage_capped == capped
    &&& segments_view(r.segments@) == map_segments_spec(rows, segments, text_of(log.map))
    &&& r.first_picks@.map_values(|p: FirstPickView| pick_view(p)) == picks_on_clock(
        fights.first_picks@,
        ks,
        rows,
        fights.first_picks@.len() as int,
    )
    &&& series_lens(r.state, seconds(rows))
    &&& series_view(r.state) == state_series_spec(rows, gs, log.rounds@)
    &&& r.fights@ == fights.players@
}

/// The match page's analysis of a log: its game clock, players, kills,
/// damage by class and over time, play-by-play, maps, first picks and the
/// game state second by second.
pub fn analysis(
    log: &NormalizedLog,
    gs: &GameState,
    fights: Fights,
    kills: &[Kill],
    chat: &[Chat],
    damage: &[Damage],
    windows: &[RoundWindow],
    segments: &[SegmentIn],
    me: Option<SteamId>,
    capped: bool,
) -> (r: Analysis)
    requires
        analysable(*log, *gs, kills@, fights, windows@),
    ensures
        analysis_ok(r, *log, *gs, fights, kills@, chat@, damage@, windows@, segments@, me, capped),
{
    let clock = Clock::new(log);
    let ghost rows = rows_view(clock.rounds@);
    assert(rows == clock_rows(log.rounds@));
    let mut spans_v: Vec<(i64, i128, i128)> = Vec::new();
    let mut i: usize = 0;
    while i < clock.rounds.len()
        invariant
            i <= clock.rounds@.len(),
            rows == rows_view(clock.rounds@),
            clock_ok(clock.rounds@),
            spans_out(spans_v@) == spans(rows).take(i as int),
            spans_v@.len() == i,
        decreases clock.rounds@.len() - i,
    {
        let r = clock.rounds[i];
        assert(-i * 0x8000_0000_0000_0000 <= r.offset <= i * 0x8000_0000_0000_0000);
        assert(i * 0x8000_0000_0000_0000 <= 0xFFFF_FFFF_FFFF_FFFE * 0x8000_0000_0000_0000) by (nonlinear_arith)
            requires
                i <= 0xFFFF_FFFF_FFFF_FFFE,
        ;
        let ghost before = spans_v@;
        spans_v.push((r.round_num, r.offset, r.offset + r.len as i128));
        assert(rows[i as int] == row_view(r));
        assert(spans(rows)[i as int] == (r.round_num, r.offset as int, r.offset + r.len));
        assert(spans_out(spans_v@) =~= spans(rows).take(i + 1)) by {
            assert forall|x: int| 0 <= x < i + 1 implies #[trigger] spans_out(spans_v@)[x] == spans(rows).take(i + 1)[x] by {
                if x < i {
                    assert(spans_v@[x] == before[x]);
                    assert(spans_out(before)[x] == spans(
                        rows,
                    ).take(i as int)[x]);
                }
            }
        }
        i += 1;
    }
    assert(spans(rows).take(clock.rounds@.len() as int) =~= spans(rows));
    let placed = clock.kills_on_clock(kills);
    let ghost ks = kills@.map_values(|k: Kill| k@);
    let ghost pv = placed@.map_values(|p: PlacedKill| placed_view(p));
    let mut has_positions = false;
    let mut q: usize = 0;
    while q < placed.len()
        invariant
            q <= placed@.len(),
            ks == kills@.map_values(|k: Kill| k@),
            pv == placed@.map_values(|p: PlacedKill| placed_view(p)),
            forall|x: int| 0 <= x < placed@.len() ==> (#[trigger] placed@[x]).index < kills@.len(),
            has_positions == exists|x: int| 0 <= x < q && (#[trigger] ks[pv[x].0]).killer_pos is Some,
        decreases placed@.len() - q,
    {
        let k = &kills[placed[q].index];
        assert(ks[pv[q as int].0] == kills@[placed@[q as int].index as int]@);
        if k.killer_pos.is_some() {
            has_positions = true;
            assert(ks[pv[q as int].0].killer_pos is Some);
        }
        q += 1;
    }
    let map = match &log.map {
        Some(m) => Some(copy_string(m)),
        None => None,
    };
    let views = kill_views(placed.as_slice(), kills, windows, &log.map, fights.tags.as_slice());
    assert forall|q: int| 0 <= q < pv.len() implies #[trigger] pv[q] == (
        placed@[q].index as int,
        placed@[q].t as int,
        placed@[q].round_num,
    ) by {}
    let first_picks = clock.first_picks(fights.first_picks.as_slice(), kills);
    Analysis {
        log_id: log.log_id,
        map,
        duration_s: clock.duration(),
        rounds: spans_v,
        players: players(log, me),
        damage: clock.damage_by_class(damage, capped),
        damage_series: clock.damage_series(damage, capped),
        events: clock.play_by_play(log, chat, kills),
        has_positions,
        damage_capped: capped,
        segments: clock.map_segments(segments, &log.map),
        first_picks,
        state: clock.state_series(gs, log),
        kills: views,
        fights: fights.players,
    }
}

// ---------------------------------------------------------------------------
// The game state second by second
// ---------------------------------------------------------------------------

/// One second of game time in stable teams (a stopwatch half's colour swap
/// undone): each team's players alive and charge, and who holds the uber
/// advantage (`1` Red, `-1` Blue, `0` neither).
pub type Sample = (u8, u8, Charge, Charge, i8);

/// The state sampled once per game second.
#[derive(Debug, Clone)]
pub struct StateSeries {
    pub red_alive: Vec<u8>,
    pub blue_alive: Vec<u8>,
    pub red_charge: Vec<Charge>,
    pub blue_charge: Vec<Charge>,
    pub advantage: Vec<i8>,
}

/// Whether the log says the teams swapped colours in round `num`.
pub open spec fn swapped_spec(rs: Seq<RoundLine>, num: i64) -> bool {
    exists|i: int| 0 <= i < rs.len() && (#[trigger] rs[i]).round_num == num && rs[i].colours_swapped
}

/// The state at `t` of a round whose colours were `swapped` or not.
pub open spec fn sample_at(gs: GameState, swapped: bool, t: int) -> Sample {
    let red = if swapped {
        Team::Blue
    } else {
        Team::Red
    };
    let blue = if swapped {
        Team::Red
    } else {
        Team::Blue
    };
    let n = gs.charges@.len() as int;
    (
        count_alive(gs.lives@, red, t, gs.lives@.len() as int) as u8,
        count_alive(gs.lives@, blue, t, gs.lives@.len() as int) as u8,
        best_charge(gs.charges@, red, t, n),
        best_charge(gs.charges@, blue, t, n),
        match advantage_spec(best_charge(gs.charges@, Team::Red, t, n), best_charge(gs.charges@, Team::Blue, t, n)) {
            Some(c) => if c == red {
                1i8
            } else {
                -1i8
            },
            None => 0i8,
        },
    )
}

/// The second of game time that second `sec` of a round at `off` fills.
pub open spec fn slot_of(off: int, sec: int) -> int {
    if off + sec < 0 {
        0
    } else {
        off + sec
    }
}

/// The samples after the first `j` seconds of round `row`.
pub open spec fn row_writes(s: Seq<Sample>, gs: GameState, sw: bool, row: (i64, i64, i64, int), j: int) -> Seq<Sample>
    decreases j,
{
    if j <= 0 {
        s
    } else {
        let prev = row_writes(s, gs, sw, row, j - 1);
        let i = slot_of(row.3, j - 1);
        if i < s.len() {
            prev.update(i, sample_at(gs, sw, row.1 + (j - 1)))
        } else {
            prev
        }
    }
}

/// The samples after the first `k` rounds on the clock.
pub open spec fn series_upto(rows: Seq<(i64, i64, i64, int)>, gs: GameState, rs: Seq<RoundLine>, n: int, k: int) -> Seq<Sample>
    decreases k,
{
    if k <= 0 {
        Seq::new(n as nat, |i: int| (0u8, 0u8, Charge::NoMedic, Charge::NoMedic, 0i8))
    } else {
        let row = rows[k - 1];
        row_writes(series_upto(rows, gs, rs, n, k - 1), gs, swapped_spec(rs, row.0), row, row.2 as int)
    }
}

/// One second per second of game time (a started one counts).
pub open spec fn seconds(rows: Seq<(i64, i64, i64, int)>) -> int {
    let d = duration_spec(rows);
    if d < 0 {
        0
    } else {
        d
    }
}

pub open spec fn state_series_spec(rows: Seq<(i64, i64, i64, int)>, gs: GameState, rs: Seq<RoundLine>) -> Seq<Sample> {
    series_upto(rows, gs, rs, seconds(rows), rows.len() as int)
}

/// What sampling needs: each sampled moment fits `i64`, and no team has
/// more than 255 players alive then.
pub open spec fn samplable(rows: Seq<(i64, i64, i64, int)>, gs: GameState) -> bool {
    forall|k: int, sec: int|
        #![trigger slot_of(rows[k].3, sec)]
        0 <= k < rows.len() && 0 <= sec < rows[k].2 && slot_of(rows[k].3, sec) < seconds(rows) ==> {
            &&& i64::MIN <= rows[k].1 + sec <= i64::MAX
            &&& count_alive(gs.lives@, Team::Red, rows[k].1 + sec, gs.lives@.len() as int) <= u8::MAX
            &&& count_alive(gs.lives@, Team::Blue, rows[k].1 + sec, gs.lives@.len() as int) <= u8::MAX
        }
}

pub open spec fn series_view(s: StateSeries) -> Seq<Sample> {
    Seq::new(
        s.red_alive@.len(),
        |i: int| (s.red_alive@[i], s.blue_alive@[i], s.red_charge@[i], s.blue_charge@[i], s.advantage@[i]),
    )
}

pub open spec fn series_lens(s: StateSeries, n: int) -> bool {
    &&& s.red_alive@.len() == n
    &&& s.blue_alive@.len() == n
    &&& s.red_charge@.len() == n
    &&& s.blue_charge@.len() == n
    &&& s.advantage@.len() == n
}

fn fill<T: Copy>(n: usize, x: T) -> (v: Vec<T>)
    ensures
        v@ == Seq::new(n as nat, |i: int| x),
{
    let mut v: Vec<T> = Vec::new();
    while v.len() < n
        invariant
            v@.len() <= n,
            forall|i: int| 0 <= i < v@.len() ==> #[trigger] v@[i] == x,
        decreases n - v@.len(),
    {
        v.push(x);
    }
    assert(v@ =~= Seq::new(n as nat, |i: int| x));
    v
}

fn swapped_in(rs: &[RoundLine], num: i64) -> (b: bool)
    ensures
        b == swapped_spec(rs@, num),
{
    let mut i: usize = 0;
    while i < rs.len()
        invariant
            i <= rs@.len(),
            forall|j: int| 0 <= j < i ==> !((#[trigger] rs@[j]).round_num == num && rs@[j].colours_swapped),
        decreases rs@.len() - i,
    {
        if rs[i].round_num == num && rs[i].colours_swapped {
            return true;
        }
        i += 1;
    }
    false
}

impl Clock {
    /// The game state sampled once per second of game time, in stable
    /// teams: players alive, each team's charge, and the uber advantage.
    pub fn state_series(&self, gs: &GameState, log: &NormalizedLog) -> (r: StateSeries)
        requires
            clock_ok(self.rounds@),
            seconds(rows_view(self.rounds@)) <= isize::MAX / 16,
            samplable(rows_view(self.rounds@), *gs),
        ensures
            series_lens(r, seconds(rows_view(self.rounds@))),
            series_view(r) == state_series_spec(rows_view(self.rounds@), *gs, log.rounds@),
    {
        let ghost rows = rows_view(self.rounds@);
        let d = self.duration();
        let n: usize = if d < 0 {
            0
        } else {
            d as usize
        };
        let ghost ni = n as int;
        assert(ni == seconds(rows));
        let mut out = StateSeries {
            red_alive: fill(n, 0u8),
            blue_alive: fill(n, 0u8),
            red_charge: fill(n, Charge::NoMedic),
            blue_charge: fill(n, Charge::NoMedic),
            advantage: fill(n, 0i8),
        };
        assert(series_view(out) =~= series_upto(rows, *gs, log.rounds@, ni, 0));
        let mut k: usize = 0;
        while k < self.rounds.len()
            invariant
                k <= self.rounds@.len(),
                rows == rows_view(self.rounds@),
                clock_ok(self.rounds@),
                ni == n,
                ni == seconds(rows),
                samplable(rows, *gs),
                series_lens(out, ni),
                series_view(out) == series_upto(rows, *gs, log.rounds@, ni, k as int),
            decreases self.rounds@.len() - k,
        {
            let row = self.rounds[k];
            assert(rows[k as int] == row_view(row));
            let sw = swapped_in(log.rounds.as_slice(), row.round_num);
            let red = if sw {
                Team::Blue
            } else {
                Team::Red
            };
            let ghost base = series_view(out);
            let mut sec: i64 = 0;
            while sec < row.len
                invariant
                    0 <= sec,
                    row.len <= 0 || sec <= row.len,
                    rows[k as int] == row_view(row),
                    k < rows.len(),
                    rows == rows_view(self.rounds@),
                    clock_ok(self.rounds@),
                    ni == n,
                    ni == seconds(rows),
                    samplable(rows, *gs),
                    series_lens(out, ni),
                    sw == swapped_spec(log.rounds@, row.round_num),
                    red == (if sw {
                        Team::Blue
                    } else {
                        Team::Red
                    }),
                    series_view(out) == row_writes(base, *gs, sw, row_view(row), sec as int),
                    base.len() == ni,
                    row.len <= 0 ==> sec == 0,
                ensures
                    series_view(out) == row_writes(base, *gs, sw, row_view(row), row.len as int),
                decreases row.len - sec,
            {
                let ghost at = slot_of(row.offset as int, sec as int);
                assert(-k * 0x8000_0000_0000_0000 <= row.offset <= k * 0x8000_0000_0000_0000);
                assert(k * 0x8000_0000_0000_0000 <= 0xFFFF_FFFF_FFFF_FFFE * 0x8000_0000_0000_0000)
                    by (nonlinear_arith)
                    requires
                        k <= 0xFFFF_FFFF_FFFF_FFFE,
                ;
                let pos: i128 = row.offset + sec as i128;
                let i: usize = if pos < 0 {
                    0
                } else if pos >= n as i128 {
                    n
                } else {
                    pos as usize
                };
                if i >= n {
                    // Every later second of the round falls past the end too.
                    proof {
                        lemma_writes_past_end(base, *gs, sw, row_view(row), sec as int, row.len as int);
                    }
                    break;
                }
                let t: i64 = row.start + sec;
                let alive = gs.numbers_at(t);
                let by_colour_red = if red == Team::Red {
                    alive[0]
                } else {
                    alive[1]
                };
                let by_colour_blue = if red == Team::Red {
                    alive[1]
                } else {
                    alive[0]
                };
                let blue = if sw {
                    Team::Red
                } else {
                    Team::Blue
                };
                let rc = gs.charge_at(red, t);
                let bc = gs.charge_at(blue, t);
                let adv: i8 = match gs.advantage_at(t) {
                    Some(c) => if c == red {
                        1
                    } else {
                        -1
                    },
                    None => 0,
                };
                let ghost before = series_view(out);
                out.red_alive.set(i, by_colour_red);
                out.blue_alive.set(i, by_colour_blue);
                out.red_charge.set(i, rc);
                out.blue_charge.set(i, bc);
                out.advantage.set(i, adv);
                assert(series_view(out) =~= before.update(i as int, sample_at(*gs, sw, t as int)));
                sec += 1;
            }
            assert(series_view(out) == series_upto(rows, *gs, log.rounds@, ni, k + 1));
            k += 1;
        }
        out
    }
}

/// Once a round's seconds run past the end of the clock, the rest do too.
pub proof fn lemma_writes_past_end(s: Seq<Sample>, gs: GameState, sw: bool, row: (i64, i64, i64, int), a: int, b: int)
    requires
        0 <= a <= b,
        slot_of(row.3, a) >= s.len(),
    ensures
        row_writes(s, gs, sw, row, b) == row_writes(s, gs, sw, row, a),
    decreases b - a,
{
    if b > a {
        lemma_writes_past_end(s, gs, sw, row, a, b - 1);
        assert(slot_of(row.3, b - 1) >= s.len());
    }
}

} // verus!
