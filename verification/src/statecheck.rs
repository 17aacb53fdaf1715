//! Checks the game state (`state.rs`) against what logs.tf counted from the
//! same raw logs, and against the log's own "advantage lost" lines: one log
//! at a time, into a running report.
use crate::fights::kills_of;
use crate::matchdata::{other_team, NormalizedLog, PlayerLine, Team};
use crate::rawlog::{Kill, KillV, RawLog};
use crate::state::{
    advantage_spec, best_charge, count_alive, ChargeKind, ChargeSpan, GameState, Life, LifeEnd, LostAdvantage, Round,
};
use vstd::prelude::*;

verus! {

/// What the state says happened at a log's "advantage lost" line.
#[derive(Debug, Clone, Copy, PartialEq, Eq, Structural)]
pub enum LostCause {
    HeldEnemyReady,
    HeldMedicDied,
    HeldOther,
    NoneEnemyReady,
    NoneOther,
}

pub open spec fn cause_text(c: LostCause) -> Seq<char> {
    match c {
        LostCause::HeldEnemyReady => "held the advantage, enemy charge became ready"@,
        LostCause::HeldMedicDied => "held the advantage, Medic died"@,
        LostCause::HeldOther => "held the advantage, other"@,
        LostCause::NoneEnemyReady => "no advantage in the state, enemy became ready"@,
        LostCause::NoneOther => "no advantage in the state, other"@,
    }
}

impl LostCause {
    /// How a report names the cause.
    pub fn text(self) -> (r: &'static str)
        ensures
            r@ == cause_text(self),
    {
        match self {
            LostCause::HeldEnemyReady => "held the advantage, enemy charge became ready",
            LostCause::HeldMedicDied => "held the advantage, Medic died",
            LostCause::HeldOther => "held the advantage, other",
            LostCause::NoneEnemyReady => "no advantage in the state, enemy became ready",
            LostCause::NoneOther => "no advantage in the state, other",
        }
    }
}

/// "Advantage lost" lines, by what the state says happened.
#[derive(Debug, Clone, Copy, Default, PartialEq, Eq, Structural)]
pub struct LostCounts {
    pub held_enemy_ready: usize,
    pub held_medic_died: usize,
    pub held_other: usize,
    pub none_enemy_ready: usize,
    pub none_other: usize,
}

/// How the game state agrees with logs.tf, over the logs checked so far.
#[derive(Debug)]
pub struct Report {
    pub logs: usize,
    /// Counted kills, and those whose victim had no open life to end.
    pub kills: usize,
    pub kills_without_life: usize,
    /// Medics compared with logs.tf's `ubers`, and those that differ:
    /// (log, account, logs.tf's count, the state's).
    pub medics: usize,
    pub uber_mismatch: Vec<(i64, u32, i64, i64)>,
    /// Same for `drops`: died holding a ready charge.
    pub drop_mismatch: Vec<(i64, u32, i64, i64)>,
    /// Seconds inside rounds, and the most players alive on one colour.
    pub seconds: i64,
    pub max_alive: u8,
    pub seconds_over_nine: i64,
    /// Of those, the ones in a round's first 15 seconds: a sub swapping in.
    pub over_nine_at_start: i64,
    /// Logs with any second over nine.
    pub logs_over_nine: usize,
    /// The worst such moment: (log, time, [red, blue]).
    pub over_nine_example: Option<(i64, i64, [u8; 2])>,
    pub lost_ad: LostCounts,
}

impl Default for Report {
    fn default() -> (r: Report)
        ensures
            r.logs == 0 && r.kills == 0 && r.kills_without_life == 0 && r.medics == 0,
            r.uber_mismatch@ == Seq::<(i64, u32, i64, i64)>::empty(),
            r.drop_mismatch@ == Seq::<(i64, u32, i64, i64)>::empty(),
            r.seconds == 0 && r.max_alive == 0 && r.seconds_over_nine == 0 && r.over_nine_at_start == 0,
            r.logs_over_nine == 0,
            r.over_nine_example is None,
            r.lost_ad == (LostCounts {
                held_enemy_ready: 0,
                held_medic_died: 0,
                held_other: 0,
                none_enemy_ready: 0,
                none_other: 0,
            }),
    {
        Report {
            logs: 0,
            kills: 0,
            kills_without_life: 0,
            medics: 0,
            uber_mismatch: Vec::new(),
            drop_mismatch: Vec::new(),
            seconds: 0,
            max_alive: 0,
            seconds_over_nine: 0,
            over_nine_at_start: 0,
            logs_over_nine: 0,
            over_nine_example: None,
            lost_ad: LostCounts {
                held_enemy_ready: 0,
                held_medic_died: 0,
                held_other: 0,
                none_enemy_ready: 0,
                none_other: 0,
            },
        }
    }
}

// ---------------------------------------------------------------------------
// 1. Every counted kill ends a life.
// ---------------------------------------------------------------------------

/// Whether some life of the victim ended at the kill, by that killer.
pub open spec fn ended(lives: Seq<Life>, k: KillV) -> bool {
    exists|i: int|
        #![trigger lives[i]]
        0 <= i < lives.len() && lives[i].account == k.victim.account && lives[i].to == k.at && lives[i].end
            == LifeEnd::Killed { by: k.killer.account }
}

pub open spec fn counted_n(ks: Seq<KillV>, n: int) -> int
    decreases n,
{
    if n <= 0 {
        0
    } else {
        counted_n(ks, n - 1) + if crate::rawlog::kill_counts(ks[n - 1]) {
            1int
        } else {
            0int
        }
    }
}

pub open spec fn lifeless_n(ks: Seq<KillV>, lives: Seq<Life>, n: int) -> int
    decreases n,
{
    if n <= 0 {
        0
    } else {
        lifeless_n(ks, lives, n - 1) + if crate::rawlog::kill_counts(ks[n - 1]) && !ended(lives, ks[n - 1]) {
            1int
        } else {
            0int
        }
    }
}

fn ended_in(lives: &[Life], k: &Kill) -> (b: bool)
    ensures
        b == ended(lives@, k@),
{
    let mut i: usize = 0;
    while i < lives.len()
        invariant
            i <= lives@.len(),
            forall|j: int|
                #![trigger lives@[j]]
                0 <= j < i ==> !(lives@[j].account == k@.victim.account && lives@[j].to == k@.at && lives@[j].end
                    == LifeEnd::Killed { by: k@.killer.account }),
        decreases lives@.len() - i,
    {
        let l = lives[i];
        if l.account == k.victim.account && l.to == k.at && l.end == (LifeEnd::Killed { by: k.killer.account }) {
            assert(lives@[i as int] == l);
            return true;
        }
        i += 1;
    }
    false
}

proof fn lemma_counts_bounded(ks: Seq<KillV>, lives: Seq<Life>, n: int)
    requires
        0 <= n,
    ensures
        0 <= lifeless_n(ks, lives, n) <= counted_n(ks, n) <= n,
    decreases n,
{
    if n > 0 {
        lemma_counts_bounded(ks, lives, n - 1);
    }
}

// ---------------------------------------------------------------------------
// 2. Ubers and drops per Medic, inside rounds, against logs.tf.
// ---------------------------------------------------------------------------

pub open spec fn in_round(rounds: Seq<Round>, t: int) -> bool {
    exists|i: int|
        #![trigger rounds[i]]
        0 <= i < rounds.len() && rounds[i].start <= t && (rounds[i].end matches Some(e) ==> t <= e)
}

/// Whether the Medic's life ended at `t` by a death.
pub open spec fn died_at(lives: Seq<Life>, medic: u32, t: int) -> bool {
    exists|i: int|
        #![trigger lives[i]]
        0 <= i < lives.len() && lives[i].account == medic && lives[i].to == t && (lives[i].end is Killed
            || lives[i].end == LifeEnd::Suicide)
}

pub open spec fn is_uber(c: ChargeSpan, rounds: Seq<Round>, medic: u32) -> bool {
    c.medic == medic && c.kind == ChargeKind::Deployed && in_round(rounds, c.from as int)
}

pub open spec fn is_drop(c: ChargeSpan, rounds: Seq<Round>, lives: Seq<Life>, medic: u32) -> bool {
    c.medic == medic && c.kind == ChargeKind::Ready && in_round(rounds, c.to as int) && died_at(lives, medic, c.to as int)
}

/// The Medic's charges used inside rounds, among the first `n` spans.
pub open spec fn ubers_n(s: GameState, medic: u32, n: int) -> int
    decreases n,
{
    if n <= 0 {
        0
    } else {
        ubers_n(s, medic, n - 1) + if is_uber(s.charges@[n - 1], s.rounds@, medic) {
            1int
        } else {
            0int
        }
    }
}

/// The Medic's ready charges lost to a death inside rounds.
pub open spec fn drops_n(s: GameState, medic: u32, n: int) -> int
    decreases n,
{
    if n <= 0 {
        0
    } else {
        drops_n(s, medic, n - 1) + if is_drop(s.charges@[n - 1], s.rounds@, s.lives@, medic) {
            1int
        } else {
            0int
        }
    }
}

pub open spec fn ubers_of(s: GameState, medic: u32) -> int {
    ubers_n(s, medic, s.charges@.len() as int)
}

pub open spec fn drops_of(s: GameState, medic: u32) -> int {
    drops_n(s, medic, s.charges@.len() as int)
}

/// Whether a player is compared: logs.tf or the state saw a charge of theirs.
pub open spec fn compared(p: PlayerLine, s: GameState) -> bool {
    !(p.stats.ubers == 0 && p.stats.drops == 0 && ubers_of(s, p.id@) == 0 && drops_of(s, p.id@) == 0)
}

pub open spec fn medics_n(ps: Seq<PlayerLine>, s: GameState, n: int) -> int
    decreases n,
{
    if n <= 0 {
        0
    } else {
        medics_n(ps, s, n - 1) + if compared(ps[n - 1], s) {
            1int
        } else {
            0int
        }
    }
}

/// The compared players whose ubers differ: (log, account, logs.tf's, the state's).
pub open spec fn uber_mismatches(log_id: i64, ps: Seq<PlayerLine>, s: GameState, n: int) -> Seq<(i64, u32, i64, i64)>
    decreases n,
{
    if n <= 0 {
        Seq::empty()
    } else {
        let prev = uber_mismatches(log_id, ps, s, n - 1);
        let p = ps[n - 1];
        if compared(p, s) && ubers_of(s, p.id@) != p.stats.ubers {
            prev.push((log_id, p.id@, p.stats.ubers, ubers_of(s, p.id@) as i64))
        } else {
            prev
        }
    }
}

pub open spec fn drop_mismatches(log_id: i64, ps: Seq<PlayerLine>, s: GameState, n: int) -> Seq<(i64, u32, i64, i64)>
    decreases n,
{
    if n <= 0 {
        Seq::empty()
    } else {
        let prev = drop_mismatches(log_id, ps, s, n - 1);
        let p = ps[n - 1];
        if compared(p, s) && drops_of(s, p.id@) != p.stats.drops {
            prev.push((log_id, p.id@, p.stats.drops, drops_of(s, p.id@) as i64))
        } else {
            prev
        }
    }
}

fn in_round_in(rounds: &[Round], t: i64) -> (b: bool)
    ensures
        b == in_round(rounds@, t as int),
{
    let mut i: usize = 0;
    while i < rounds.len()
        invariant
            i <= rounds@.len(),
            forall|j: int|
                #![trigger rounds@[j]]
                0 <= j < i ==> !(rounds@[j].start <= t && (rounds@[j].end matches Some(e) ==> t <= e)),
        decreases rounds@.len() - i,
    {
        let r = rounds[i];
        let inside = r.start <= t && match r.end {
            Some(e) => t <= e,
            None => true,
        };
        if inside {
            assert(rounds@[i as int] == r);
            return true;
        }
        i += 1;
    }
    false
}

fn died_in(lives: &[Life], medic: u32, t: i64) -> (b: bool)
    ensures
        b == died_at(lives@, medic, t as int),
{
    let mut i: usize = 0;
    while i < lives.len()
        invariant
            i <= lives@.len(),
            forall|j: int|
                #![trigger lives@[j]]
                0 <= j < i ==> !(lives@[j].account == medic && lives@[j].to == t && (lives@[j].end is Killed
                    || lives@[j].end == LifeEnd::Suicide)),
        decreases lives@.len() - i,
    {
        let l = lives[i];
        let by_death = match l.end {
            LifeEnd::Killed { .. } => true,
            LifeEnd::Suicide => true,
            _ => false,
        };
        if l.account == medic && l.to == t && by_death {
            assert(lives@[i as int] == l);
            return true;
        }
        i += 1;
    }
    false
}

proof fn lemma_charge_counts(s: GameState, medic: u32, n: int)
    requires
        0 <= n,
    ensures
        0 <= ubers_n(s, medic, n) <= n,
        0 <= drops_n(s, medic, n) <= n,
    decreases n,
{
    if n > 0 {
        lemma_charge_counts(s, medic, n - 1);
    }
}

/// A Medic's ubers and drops in the state.
fn charges_of(s: &GameState, medic: u32) -> (r: (i64, i64))
    requires
        s.charges@.len() <= i64::MAX,
    ensures
        r.0 == ubers_of(*s, medic),
        r.1 == drops_of(*s, medic),
{
    let mut ubers: i64 = 0;
    let mut drops: i64 = 0;
    let mut i: usize = 0;
    while i < s.charges.len()
        invariant
            i <= s.charges@.len() <= i64::MAX,
            ubers == ubers_n(*s, medic, i as int),
            drops == drops_n(*s, medic, i as int),
        decreases s.charges@.len() - i,
    {
        proof {
            lemma_charge_counts(*s, medic, i as int);
        }
        let c = &s.charges[i];
        if c.medic == medic && c.kind == ChargeKind::Deployed && in_round_in(s.rounds.as_slice(), c.from) {
            ubers += 1;
        }
        if c.medic == medic && c.kind == ChargeKind::Ready && in_round_in(s.rounds.as_slice(), c.to) && died_in(
            s.lives.as_slice(),
            medic,
            c.to,
        ) {
            drops += 1;
        }
        i += 1;
    }
    (ubers, drops)
}


// ---------------------------------------------------------------------------
// 3. Players alive, second by second inside rounds.
// ---------------------------------------------------------------------------

/// The alive counts of a report as plain values.
pub struct Seconds {
    pub seconds: int,
    pub max_alive: int,
    pub over_nine: int,
    pub at_start: int,
    pub example: Option<(i64, i64, int, int)>,
}

pub open spec fn example_view(o: Option<(i64, i64, [u8; 2])>) -> Option<(i64, i64, int, int)> {
    match o {
        Some((l, t, n)) => Some((l, t, n[0] as int, n[1] as int)),
        None => None,
    }
}

pub open spec fn seconds_of(r: Report) -> Seconds {
    Seconds {
        seconds: r.seconds as int,
        max_alive: r.max_alive as int,
        over_nine: r.seconds_over_nine as int,
        at_start: r.over_nine_at_start as int,
        example: example_view(r.over_nine_example),
    }
}

pub open spec fn max2(a: int, b: int) -> int {
    if a >= b {
        a
    } else {
        b
    }
}

/// One second of a round that started at `start`, with `red` and `blue`
/// alive: more than nine on a colour is worth a look, and the worst such
/// moment is kept, the first of equals.
pub open spec fn second_step(a: Seconds, log_id: i64, t: int, start: int, red: int, blue: int) -> Seconds {
    let over = red > 9 || blue > 9;
    let m = max2(red, blue);
    Seconds {
        seconds: a.seconds + 1,
        max_alive: max2(a.max_alive, m),
        over_nine: a.over_nine + if over {
            1int
        } else {
            0int
        },
        at_start: a.at_start + if over && t - start < 15 {
            1int
        } else {
            0int
        },
        example: if over && (match a.example {
            Some((_, _, r, b)) => m > max2(r, b),
            None => true,
        }) {
            Some((log_id, t as i64, red, blue))
        } else {
            a.example
        },
    }
}

pub open spec fn alive_of(s: GameState, team: Team, t: int) -> int {
    count_alive(s.lives@, team, t, s.lives@.len() as int) as int
}

/// The counts after the seconds `start..t` of a round.
pub open spec fn through_round(a: Seconds, log_id: i64, s: GameState, start: int, t: int) -> Seconds
    decreases t - start,
{
    if t <= start {
        a
    } else {
        second_step(
            through_round(a, log_id, s, start, t - 1),
            log_id,
            t - 1,
            start,
            alive_of(s, Team::Red, t - 1),
            alive_of(s, Team::Blue, t - 1),
        )
    }
}

/// The counts after the first `k` rounds; a round with no end is skipped.
pub open spec fn through_rounds(a: Seconds, log_id: i64, s: GameState, k: int) -> Seconds
    decreases k,
{
    if k <= 0 {
        a
    } else {
        let prev = through_rounds(a, log_id, s, k - 1);
        match s.rounds@[k - 1].end {
            Some(e) => through_round(prev, log_id, s, s.rounds@[k - 1].start as int, e as int),
            None => prev,
        }
    }
}

/// Seconds inside the first `k` ended rounds.
pub open spec fn round_secs(rounds: Seq<Round>, k: int) -> int
    decreases k,
{
    if k <= 0 {
        0
    } else {
        round_secs(rounds, k - 1) + match rounds[k - 1].end {
            Some(e) => if e > rounds[k - 1].start {
                e - rounds[k - 1].start
            } else {
                0
            },
            None => 0,
        }
    }
}

/// At most 255 players alive on a colour at `t`.
pub open spec fn crowd_fits(s: GameState, t: int) -> bool {
    alive_of(s, Team::Red, t) <= u8::MAX && alive_of(s, Team::Blue, t) <= u8::MAX
}

pub open spec fn alive_fits(s: GameState) -> bool {
    forall|k: int, t: int|
        #![trigger s.rounds@[k], crowd_fits(s, t)]
        0 <= k < s.rounds@.len() && (s.rounds@[k].end matches Some(e) && s.rounds@[k].start <= t < e) ==> crowd_fits(
            s,
            t,
        )
}

proof fn lemma_round_growth(a: Seconds, log_id: i64, s: GameState, start: int, t: int)
    requires
        start <= t,
    ensures
        through_round(a, log_id, s, start, t).seconds == a.seconds + (t - start),
        a.over_nine <= through_round(a, log_id, s, start, t).over_nine <= a.over_nine + (t - start),
        a.at_start <= through_round(a, log_id, s, start, t).at_start <= a.at_start + (t - start),
    decreases t - start,
{
    if t > start {
        lemma_round_growth(a, log_id, s, start, t - 1);
    }
}

proof fn lemma_rounds_growth(a: Seconds, log_id: i64, s: GameState, k: int)
    requires
        0 <= k <= s.rounds@.len(),
    ensures
        through_rounds(a, log_id, s, k).seconds == a.seconds + round_secs(s.rounds@, k),
        a.over_nine <= through_rounds(a, log_id, s, k).over_nine <= a.over_nine + round_secs(s.rounds@, k),
        a.at_start <= through_rounds(a, log_id, s, k).at_start <= a.at_start + round_secs(s.rounds@, k),
        0 <= round_secs(s.rounds@, k),
    decreases k,
{
    if k > 0 {
        lemma_rounds_growth(a, log_id, s, k - 1);
        let prev = through_rounds(a, log_id, s, k - 1);
        match s.rounds@[k - 1].end {
            Some(e) => {
                let st = s.rounds@[k - 1].start as int;
                if e > st {
                    lemma_round_growth(prev, log_id, s, st, e as int);
                }
            },
            None => {},
        }
    }
}

proof fn lemma_round_secs_grow(rounds: Seq<Round>, k: int, m: int)
    requires
        0 <= k <= m,
    ensures
        round_secs(rounds, k) <= round_secs(rounds, m),
    decreases m - k,
{
    if k < m {
        lemma_round_secs_grow(rounds, k, m - 1);
    }
}

// ---------------------------------------------------------------------------
// 4. Each "advantage lost" line: what does the state say happened?
// ---------------------------------------------------------------------------

/// An enemy charge became ready within a second of the line.
pub open spec fn enemy_ready(s: GameState, at: int, enemy: Team) -> bool {
    exists|i: int|
        #![trigger s.charges@[i]]
        0 <= i < s.charges@.len() && s.charges@[i].team == enemy && s.charges@[i].kind == ChargeKind::Ready && -1
            <= s.charges@[i].from - at <= 1
}

/// The Medic's life ended within a second of the line.
pub open spec fn medic_gone(s: GameState, at: int, medic: u32) -> bool {
    exists|i: int|
        #![trigger s.lives@[i]]
        0 <= i < s.lives@.len() && s.lives@[i].account == medic && -1 <= s.lives@[i].to - at <= 1 && s.lives@[i].end
            != LifeEnd::LogEnd
}

pub open spec fn cause_of(s: GameState, la: LostAdvantage, team: Team) -> LostCause {
    let had = advantage_spec(
        best_charge(s.charges@, Team::Red, la.at - 1, s.charges@.len() as int),
        best_charge(s.charges@, Team::Blue, la.at - 1, s.charges@.len() as int),
    ) == Some(team);
    let ready = enemy_ready(s, la.at as int, other_team(team));
    let died = medic_gone(s, la.at as int, la.medic);
    if had && ready {
        LostCause::HeldEnemyReady
    } else if had && died {
        LostCause::HeldMedicDied
    } else if had {
        LostCause::HeldOther
    } else if ready {
        LostCause::NoneEnemyReady
    } else {
        LostCause::NoneOther
    }
}

pub open spec fn tally(c: LostCounts, k: LostCause) -> LostCounts {
    match k {
        LostCause::HeldEnemyReady => LostCounts { held_enemy_ready: (c.held_enemy_ready + 1) as usize, ..c },
        LostCause::HeldMedicDied => LostCounts { held_medic_died: (c.held_medic_died + 1) as usize, ..c },
        LostCause::HeldOther => LostCounts { held_other: (c.held_other + 1) as usize, ..c },
        LostCause::NoneEnemyReady => LostCounts { none_enemy_ready: (c.none_enemy_ready + 1) as usize, ..c },
        LostCause::NoneOther => LostCounts { none_other: (c.none_other + 1) as usize, ..c },
    }
}

/// The counts after the first `n` lines; a line with no team is skipped.
pub open spec fn lost_n(c: LostCounts, s: GameState, n: int) -> LostCounts
    decreases n,
{
    if n <= 0 {
        c
    } else {
        let prev = lost_n(c, s, n - 1);
        let la = s.lost_advantages@[n - 1];
        match la.team {
            Some(team) => tally(prev, cause_of(s, la, team)),
            None => prev,
        }
    }
}

/// Room for `n` more in every count.
pub open spec fn room_for(c: LostCounts, n: int) -> bool {
    &&& c.held_enemy_ready + n <= usize::MAX
    &&& c.held_medic_died + n <= usize::MAX
    &&& c.held_other + n <= usize::MAX
    &&& c.none_enemy_ready + n <= usize::MAX
    &&& c.none_other + n <= usize::MAX
}

proof fn lemma_lost_room(c: LostCounts, s: GameState, n: int, total: int)
    requires
        0 <= n <= total,
        room_for(c, total),
    ensures
        room_for(lost_n(c, s, n), total - n),
    decreases n,
{
    if n > 0 {
        lemma_lost_room(c, s, n - 1, total);
    }
}

fn enemy_ready_in(s: &GameState, at: i64, enemy: Team) -> (b: bool)
    ensures
        b == enemy_ready(*s, at as int, enemy),
{
    let mut i: usize = 0;
    while i < s.charges.len()
        invariant
            i <= s.charges@.len(),
            forall|j: int|
                #![trigger s.charges@[j]]
                0 <= j < i ==> !(s.charges@[j].team == enemy && s.charges@[j].kind == ChargeKind::Ready && -1
                    <= s.charges@[j].from - at <= 1),
        decreases s.charges@.len() - i,
    {
        let c = &s.charges[i];
        let d = c.from as i128 - at as i128;
        if c.team == enemy && c.kind == ChargeKind::Ready && -1 <= d && d <= 1 {
            return true;
        }
        i += 1;
    }
    false
}

fn medic_gone_in(s: &GameState, at: i64, medic: u32) -> (b: bool)
    ensures
        b == medic_gone(*s, at as int, medic),
{
    let mut i: usize = 0;
    while i < s.lives.len()
        invariant
            i <= s.lives@.len(),
            forall|j: int|
                #![trigger s.lives@[j]]
                0 <= j < i ==> !(s.lives@[j].account == medic && -1 <= s.lives@[j].to - at <= 1 && s.lives@[j].end
                    != LifeEnd::LogEnd),
        decreases s.lives@.len() - i,
    {
        let l = s.lives[i];
        let d = l.to as i128 - at as i128;
        if l.account == medic && -1 <= d && d <= 1 && l.end != LifeEnd::LogEnd {
            assert(s.lives@[i as int] == l);
            return true;
        }
        i += 1;
    }
    false
}

fn cause_in(s: &GameState, la: &LostAdvantage, team: Team) -> (c: LostCause)
    requires
        la.at > i64::MIN,
    ensures
        c == cause_of(*s, *la, team),
{
    let had = s.advantage_at(la.at - 1) == Some(team);
    let ready = enemy_ready_in(s, la.at, team.other());
    let died = medic_gone_in(s, la.at, la.medic);
    if had && ready {
        LostCause::HeldEnemyReady
    } else if had && died {
        LostCause::HeldMedicDied
    } else if had {
        LostCause::HeldOther
    } else if ready {
        LostCause::NoneEnemyReady
    } else {
        LostCause::NoneOther
    }
}


// ---------------------------------------------------------------------------
// One log into the report
// ---------------------------------------------------------------------------

fn kill_tallies(raw: &RawLog, s: &GameState) -> (r: (usize, usize))
    ensures
        r.0 == counted_n(kills_of(raw), raw.kills@.len() as int),
        r.1 == lifeless_n(kills_of(raw), s.lives@, raw.kills@.len() as int),
{
    let ghost ks = kills_of(raw);
    let mut counted: usize = 0;
    let mut lifeless: usize = 0;
    let mut i: usize = 0;
    while i < raw.kills.len()
        invariant
            i <= raw.kills@.len(),
            ks == kills_of(raw),
            counted == counted_n(ks, i as int),
            lifeless == lifeless_n(ks, s.lives@, i as int),
        decreases raw.kills@.len() - i,
    {
        proof {
            lemma_counts_bounded(ks, s.lives@, i as int);
        }
        let k = &raw.kills[i];
        assert(ks[i as int] == k@);
        if k.counts() {
            counted += 1;
            if !ended_in(s.lives.as_slice(), k) {
                lifeless += 1;
            }
        }
        i += 1;
    }
    (counted, lifeless)
}

proof fn lemma_medics_bounded(ps: Seq<PlayerLine>, s: GameState, n: int)
    requires
        0 <= n,
    ensures
        0 <= medics_n(ps, s, n) <= n,
    decreases n,
{
    if n > 0 {
        lemma_medics_bounded(ps, s, n - 1);
    }
}

fn medic_tallies(log_id: i64, ps: &[PlayerLine], s: &GameState) -> (r: (
    usize,
    Vec<(i64, u32, i64, i64)>,
    Vec<(i64, u32, i64, i64)>,
))
    requires
        s.charges@.len() <= i64::MAX,
    ensures
        r.0 == medics_n(ps@, *s, ps@.len() as int),
        r.1@ == uber_mismatches(log_id, ps@, *s, ps@.len() as int),
        r.2@ == drop_mismatches(log_id, ps@, *s, ps@.len() as int),
{
    let mut medics: usize = 0;
    let mut ubers: Vec<(i64, u32, i64, i64)> = Vec::new();
    let mut drops: Vec<(i64, u32, i64, i64)> = Vec::new();
    let mut i: usize = 0;
    while i < ps.len()
        invariant
            i <= ps@.len(),
            s.charges@.len() <= i64::MAX,
            medics == medics_n(ps@, *s, i as int),
            ubers@ == uber_mismatches(log_id, ps@, *s, i as int),
            drops@ == drop_mismatches(log_id, ps@, *s, i as int),
        decreases ps@.len() - i,
    {
        proof {
            lemma_medics_bounded(ps@, *s, i as int);
        }
        let p = &ps[i];
        let id = p.id.account_id();
        let (u, d) = charges_of(s, id);
        if !(p.stats.ubers == 0 && p.stats.drops == 0 && u == 0 && d == 0) {
            medics += 1;
            if u != p.stats.ubers {
                ubers.push((log_id, id, p.stats.ubers, u));
            }
            if d != p.stats.drops {
                drops.push((log_id, id, p.stats.drops, d));
            }
        }
        i += 1;
    }
    (medics, ubers, drops)
}

/// Everything in the report but the alive counts stays.
pub open spec fn same_but_seconds(a: Report, b: Report) -> bool {
    &&& a.logs == b.logs
    &&& a.kills == b.kills
    &&& a.kills_without_life == b.kills_without_life
    &&& a.medics == b.medics
    &&& a.uber_mismatch@ == b.uber_mismatch@
    &&& a.drop_mismatch@ == b.drop_mismatch@
    &&& a.logs_over_nine == b.logs_over_nine
    &&& a.lost_ad == b.lost_ad
}

fn second_into(r: &mut Report, log_id: i64, s: &GameState, t: i64, start: i64)
    requires
        crowd_fits(*s, t as int),
        old(r).seconds < i64::MAX,
        old(r).seconds_over_nine < i64::MAX,
        old(r).over_nine_at_start < i64::MAX,
        start <= t,
    ensures
        seconds_of(*final(r)) == second_step(
            seconds_of(*old(r)),
            log_id,
            t as int,
            start as int,
            alive_of(*s, Team::Red, t as int),
            alive_of(*s, Team::Blue, t as int),
        ),
        same_but_seconds(*final(r), *old(r)),
{
    let n = s.numbers_at(t);
    r.seconds = r.seconds + 1;
    let m = if n[0] >= n[1] {
        n[0]
    } else {
        n[1]
    };
    if m > r.max_alive {
        r.max_alive = m;
    }
    if n[0] > 9 || n[1] > 9 {
        r.seconds_over_nine = r.seconds_over_nine + 1;
        if (t as i128) - (start as i128) < 15 {
            r.over_nine_at_start = r.over_nine_at_start + 1;
        }
        let worse = match r.over_nine_example {
            Some((_, _, x)) => {
                let mx = if x[0] >= x[1] {
                    x[0]
                } else {
                    x[1]
                };
                m > mx
            },
            None => true,
        };
        if worse {
            r.over_nine_example = Some((log_id, t, n));
        }
    }
}

fn seconds_into(r: &mut Report, log_id: i64, s: &GameState)
    requires
        alive_fits(*s),
        old(r).seconds + round_secs(s.rounds@, s.rounds@.len() as int) <= i64::MAX,
        old(r).seconds_over_nine + round_secs(s.rounds@, s.rounds@.len() as int) <= i64::MAX,
        old(r).over_nine_at_start + round_secs(s.rounds@, s.rounds@.len() as int) <= i64::MAX,
    ensures
        seconds_of(*final(r)) == through_rounds(seconds_of(*old(r)), log_id, *s, s.rounds@.len() as int),
        same_but_seconds(*final(r), *old(r)),
{
    let ghost a0 = seconds_of(*r);
    let ghost total = round_secs(s.rounds@, s.rounds@.len() as int);
    let mut k: usize = 0;
    while k < s.rounds.len()
        invariant
            k <= s.rounds@.len(),
            alive_fits(*s),
            seconds_of(*r) == through_rounds(a0, log_id, *s, k as int),
            same_but_seconds(*r, *old(r)),
            a0 == seconds_of(*old(r)),
            total == round_secs(s.rounds@, s.rounds@.len() as int),
            a0.seconds + total <= i64::MAX,
            a0.over_nine + total <= i64::MAX,
            a0.at_start + total <= i64::MAX,
        decreases s.rounds@.len() - k,
    {
        proof {
            lemma_rounds_growth(a0, log_id, *s, k as int);
            lemma_round_secs_grow(s.rounds@, k + 1, s.rounds@.len() as int);
        }
        let rd = s.rounds[k];
        let has_end = match rd.end {
            Some(end) => rd.start < end,
            None => false,
        };
        if has_end {
            let end = rd.end.unwrap();
            let ghost a1 = seconds_of(*r);
            let mut t = rd.start;
            while t < end
                invariant
                    rd == s.rounds@[k as int],
                    rd.end == Some(end),
                    rd.start <= t <= end,
                    k < s.rounds@.len(),
                    alive_fits(*s),
                    seconds_of(*r) == through_round(a1, log_id, *s, rd.start as int, t as int),
                    a1 == through_rounds(a0, log_id, *s, k as int),
                    same_but_seconds(*r, *old(r)),
                    a1.seconds + (end - rd.start) <= i64::MAX,
                    a1.over_nine + (end - rd.start) <= i64::MAX,
                    a1.at_start + (end - rd.start) <= i64::MAX,
                decreases end - t,
            {
                proof {
                    lemma_round_growth(a1, log_id, *s, rd.start as int, t as int);
                    assert(crowd_fits(*s, t as int)) by {
                        assert(s.rounds@[k as int] == rd);
                    }
                }
                second_into(r, log_id, s, t, rd.start);
                t = t + 1;
            }
        }
        k += 1;
    }
}

fn lost_tallies(c: LostCounts, s: &GameState) -> (r: LostCounts)
    requires
        room_for(c, s.lost_advantages@.len() as int),
        forall|i: int|
            0 <= i < s.lost_advantages@.len() ==> (#[trigger] s.lost_advantages@[i]).at > i64::MIN,
    ensures
        r == lost_n(c, *s, s.lost_advantages@.len() as int),
{
    let mut r = c;
    let mut i: usize = 0;
    while i < s.lost_advantages.len()
        invariant
            i <= s.lost_advantages@.len(),
            room_for(c, s.lost_advantages@.len() as int),
            forall|j: int|
                0 <= j < s.lost_advantages@.len() ==> (#[trigger] s.lost_advantages@[j]).at > i64::MIN,
            r == lost_n(c, *s, i as int),
        decreases s.lost_advantages@.len() - i,
    {
        proof {
            lemma_lost_room(c, *s, i as int, s.lost_advantages@.len() as int);
        }
        let la = s.lost_advantages[i];
        assert(s.lost_advantages@[i as int] == la);
        if let Some(team) = la.team {
            match cause_in(s, &la, team) {
                LostCause::HeldEnemyReady => r.held_enemy_ready = r.held_enemy_ready + 1,
                LostCause::HeldMedicDied => r.held_medic_died = r.held_medic_died + 1,
                LostCause::HeldOther => r.held_other = r.held_other + 1,
                LostCause::NoneEnemyReady => r.none_enemy_ready = r.none_enemy_ready + 1,
                LostCause::NoneOther => r.none_other = r.none_other + 1,
            }
        }
        i += 1;
    }
    r
}

impl Report {
    /// Add one log: its normalized form, its raw log, and the game state
    /// rebuilt from the raw log. Every counted kill should end a life; each
    /// Medic's ubers and drops inside rounds should match logs.tf's; no colour
    /// should have more than nine alive; and each of the log's "advantage
    /// lost" lines is sorted by what the state says happened.
    pub fn add_log(&mut self, log_id: i64, log: &NormalizedLog, raw: &RawLog, s: &GameState)
        requires
            old(self).logs < usize::MAX,
            old(self).kills + raw.kills@.len() <= usize::MAX,
            old(self).kills_without_life + raw.kills@.len() <= usize::MAX,
            old(self).medics + log.players@.len() <= usize::MAX,
            old(self).logs_over_nine < usize::MAX,
            s.charges@.len() <= i64::MAX,
            alive_fits(*s),
            old(self).seconds + round_secs(s.rounds@, s.rounds@.len() as int) <= i64::MAX,
            old(self).seconds_over_nine + round_secs(s.rounds@, s.rounds@.len() as int) <= i64::MAX,
            old(self).over_nine_at_start + round_secs(s.rounds@, s.rounds@.len() as int) <= i64::MAX,
            room_for(old(self).lost_ad, s.lost_advantages@.len() as int),
            forall|i: int|
                0 <= i < s.lost_advantages@.len() ==> (#[trigger] s.lost_advantages@[i]).at > i64::MIN,
        ensures
            final(self).logs == old(self).logs + 1,
            final(self).kills == old(self).kills + counted_n(kills_of(raw), raw.kills@.len() as int),
            final(self).kills_without_life == old(self).kills_without_life + lifeless_n(
                kills_of(raw),
                s.lives@,
                raw.kills@.len() as int,
            ),
            final(self).medics == old(self).medics + medics_n(log.players@, *s, log.players@.len() as int),
            final(self).uber_mismatch@ == old(self).uber_mismatch@ + uber_mismatches(
                log_id,
                log.players@,
                *s,
                log.players@.len() as int,
            ),
            final(self).drop_mismatch@ == old(self).drop_mismatch@ + drop_mismatches(
                log_id,
                log.players@,
                *s,
                log.players@.len() as int,
            ),
            seconds_of(*final(self)) == through_rounds(seconds_of(*old(self)), log_id, *s, s.rounds@.len() as int),
            final(self).logs_over_nine == old(self).logs_over_nine + if seconds_of(*final(self)).over_nine
                > old(self).seconds_over_nine {
                1int
            } else {
                0int
            },
            final(self).lost_ad == lost_n(old(self).lost_ad, *s, s.lost_advantages@.len() as int),
    {
        self.logs = self.logs + 1;
        let (counted, lifeless) = kill_tallies(raw, s);
        proof {
            lemma_counts_bounded(kills_of(raw), s.lives@, raw.kills@.len() as int);
        }
        self.kills = self.kills + counted;
        self.kills_without_life = self.kills_without_life + lifeless;
        let (medics, mut ubers, mut drops) = medic_tallies(log_id, log.players.as_slice(), s);
        proof {
            lemma_medics_bounded(log.players@, *s, log.players@.len() as int);
        }
        self.medics = self.medics + medics;
        self.uber_mismatch.append(&mut ubers);
        self.drop_mismatch.append(&mut drops);
        let before = self.seconds_over_nine;
        seconds_into(self, log_id, s);
        if self.seconds_over_nine > before {
            self.logs_over_nine = self.logs_over_nine + 1;
        }
        self.lost_ad = lost_tallies(self.lost_ad, s);
    }
}

} // verus!
