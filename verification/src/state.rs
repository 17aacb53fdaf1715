//! The game state of a match as the questions about it need it: who is
//! alive, each Medic's charge phases, the rounds, the caps and the sentries,
//! each over a span of the log's clock.
//!
//! A charge's percentage while building is a reading in floating point
//! that the caller keeps beside these spans; here a span holds what the
//! rules read of it: whose it is, its phase, when, and the medigun.
//!
//! Everything is in the colours worn at the time, which in stopwatch swap
//! between halves.
use crate::matchdata::{opt_text, other_team, Team};
use crate::rawlog::{Actor, Kill, RawLog};
use crate::text::{chars_of, lower_s, lowered, same};
use crate::tfclass::TfClass;
use vstd::prelude::*;

verus! {

#[derive(Debug, Clone, Copy, PartialEq, Eq, Structural)]
pub enum LifeEnd {
    Killed { by: u32 },
    Suicide,
    /// Disconnected or changed team.
    Left,
    /// Spawned again without a logged death: a class change in the spawn room.
    Respawned,
    /// A new round started.
    NewRound,
    /// The log, or its part of a combined log, ended.
    LogEnd,
}

#[derive(Debug, Clone, Copy, PartialEq, Eq, Structural)]
pub struct Life {
    pub account: u32,
    pub team: Team,
    pub class: TfClass,
    /// Alive over `[from, to)`.
    pub from: i64,
    pub to: i64,
    pub end: LifeEnd,
}

#[derive(Debug, Clone, Copy, PartialEq, Eq, Structural)]
pub enum ChargeKind {
    Building,
    Ready,
    Deployed,
}

/// One phase of one Medic's charge.
#[derive(Debug, Clone, PartialEq)]
pub struct ChargeSpan {
    pub medic: u32,
    pub team: Team,
    pub kind: ChargeKind,
    /// Over `[from, to)`.
    pub from: i64,
    pub to: i64,
    /// The medigun, known once it is deployed.
    pub medigun: Option<String>,
}

#[derive(Debug, Clone, Copy, PartialEq, Eq, Structural)]
pub struct Round {
    /// 1-based, in log order.
    pub num: u32,
    pub start: i64,
    /// Stopwatch: when the attackers were let out.
    pub setup_end: Option<i64>,
    pub end: Option<i64>,
    pub winner: Option<Team>,
}

#[derive(Debug, Clone, PartialEq)]
pub struct Cap {
    pub at: i64,
    pub round: u32,
    pub team: Option<Team>,
    pub cp: u32,
    pub name: String,
    pub cappers: Vec<u32>,
}

#[derive(Debug, Clone, Copy, PartialEq, Eq, Structural)]
pub enum SentryEnd {
    Destroyed { by: u32 },
    /// Blown up by its own Engineer.
    Detonated,
    /// Picked up to move it.
    Carried,
    /// The round ended, or the Engineer left or changed class.
    Cleared,
    LogEnd,
}

#[derive(Debug, Clone, Copy, PartialEq, Eq, Structural)]
pub struct Sentry {
    pub owner: u32,
    pub team: Team,
    /// Up over `[from, to)`.
    pub from: i64,
    pub to: i64,
    pub end: SentryEnd,
}

/// The log's own `lost_uber_advantage` line.
#[derive(Debug, Clone, Copy, PartialEq, Eq, Structural)]
pub struct LostAdvantage {
    pub at: i64,
    pub medic: u32,
    pub team: Option<Team>,
    pub secs: i64,
}

#[derive(Debug, Clone, Default)]
pub struct GameState {
    pub lives: Vec<Life>,
    pub charges: Vec<ChargeSpan>,
    pub rounds: Vec<Round>,
    pub caps: Vec<Cap>,
    pub sentries: Vec<Sentry>,
    pub lost_advantages: Vec<LostAdvantage>,
}

/// What a raw-log line other than a kill tells the state.
#[derive(Debug, Clone)]
pub enum EventKind {
    RoundStart,
    /// Stopwatch: the attackers are let out.
    SetupEnd,
    RoundWin(Option<Team>),
    RoundStalemate,
    GameOver,
    Spawn(Actor),
    Suicide(Actor),
    /// Disconnected or changed team.
    Left(u32),
    FirstHeal(Actor),
    ChargeReady(Actor),
    ChargeDeployed { medic: Actor, medigun: String },
    ChargeEnded(Actor),
    /// A Medic died; the charge held is a floating-point reading not kept here.
    MedicDied(Actor),
    LostAdvantage { medic: Actor, secs: i64 },
    PointCaptured { team: Option<Team>, cp: u32, name: String, cappers: Vec<u32> },
    CaptureBlocked,
    Built { by: Actor, object: String },
    ObjectKilled { by: Actor, owner: Option<u32>, object: String },
    Detonated { by: Actor, object: String },
    /// An Engineer picked up (`picked`) or put down a building.
    Carried { by: Actor, object: String, picked: bool },
}

/// An event line: when, how many kill lines came before it in the file,
/// and what it says.
#[derive(Debug, Clone)]
pub struct Event {
    pub at: i64,
    pub after_kills: usize,
    pub kind: EventKind,
}

/// A cap as plain values.
pub struct CapV {
    pub at: i64,
    pub round: u32,
    pub team: Option<Team>,
    pub cp: u32,
    pub name: Seq<char>,
    pub cappers: Seq<u32>,
}

impl View for Cap {
    type V = CapV;

    open spec fn view(&self) -> CapV {
        CapV {
            at: self.at,
            round: self.round,
            team: self.team,
            cp: self.cp,
            name: self.name@,
            cappers: self.cappers@,
        }
    }
}

/// A game state as plain values.
#[verifier::ext_equal]
pub struct StateV {
    pub lives: Seq<Life>,
    pub charges: Seq<ChargeSpan>,
    pub rounds: Seq<Round>,
    pub caps: Seq<CapV>,
    pub sentries: Seq<Sentry>,
    pub lost_advantages: Seq<LostAdvantage>,
}

impl View for GameState {
    type V = StateV;

    open spec fn view(&self) -> StateV {
        StateV {
            lives: self.lives@,
            charges: self.charges@,
            rounds: self.rounds@,
            caps: self.caps@.map_values(|c: Cap| c@),
            sentries: self.sentries@,
            lost_advantages: self.lost_advantages@,
        }
    }
}

/// A team's charge at one moment, by phase. How far a building charge has
/// got is a floating-point reading kept outside; every building charge is
/// below a full one.
#[derive(Debug, Clone, Copy, PartialEq, Eq, Structural)]
pub enum Charge {
    /// No Medic alive.
    NoMedic,
    Building,
    Ready,
    Deployed,
}

impl Charge {
    /// Can pop now.
    pub fn ready(self) -> (r: bool)
        ensures
            r == (self == Charge::Ready),
    {
        match self {
            Charge::Ready => true,
            _ => false,
        }
    }
}

pub open spec fn charge_of(k: ChargeKind) -> Charge {
    match k {
        ChargeKind::Building => Charge::Building,
        ChargeKind::Ready => Charge::Ready,
        ChargeKind::Deployed => Charge::Deployed,
    }
}

pub open spec fn covers(c: ChargeSpan, team: Team, t: int) -> bool {
    c.team == team && c.from <= t < c.to
}

/// A colour's best charge at `t` among the first `n` spans. A full charge,
/// ready or in use, beats any building one, and of two full ones the later
/// span counts.
pub open spec fn best_charge(cs: Seq<ChargeSpan>, team: Team, t: int, n: int) -> Charge
    decreases n,
{
    if n <= 0 {
        Charge::NoMedic
    } else {
        let prev = best_charge(cs, team, t, n - 1);
        let c = cs[n - 1];
        if !covers(c, team, t) {
            prev
        } else if c.kind == ChargeKind::Building {
            if prev == Charge::NoMedic {
                Charge::Building
            } else {
                prev
            }
        } else {
            charge_of(c.kind)
        }
    }
}

/// A colour's best charge at `t` among the first `n` spans: no Medic
/// exactly when no span of the colour covers `t`; a full charge (ready or
/// in use) whenever one covers `t`, and then the kind of the last such
/// span; building otherwise.
pub proof fn lemma_best_charge_cases(cs: Seq<ChargeSpan>, team: Team, t: int, n: int)
    requires
        0 <= n <= cs.len(),
    ensures
        best_charge(cs, team, t, n) == Charge::NoMedic <==> forall|i: int|
            0 <= i < n ==> !covers(#[trigger] cs[i], team, t),
        best_charge(cs, team, t, n) == Charge::Building <==> (exists|i: int|
            0 <= i < n && #[trigger] covers(cs[i], team, t)) && forall|i: int|
            0 <= i < n && #[trigger] covers(cs[i], team, t) ==> cs[i].kind == ChargeKind::Building,
        forall|i: int|
            0 <= i < n && #[trigger] covers(cs[i], team, t) && cs[i].kind != ChargeKind::Building
                && (forall|j: int|
                i < j < n && covers(cs[j], team, t) ==> cs[j].kind == ChargeKind::Building)
                ==> best_charge(cs, team, t, n) == charge_of(cs[i].kind),
    decreases n,
{
    if n > 0 {
        lemma_best_charge_cases(cs, team, t, n - 1);
        let c = cs[n - 1];
        if covers(c, team, t) && c.kind == ChargeKind::Building {
            assert forall|i: int|
                0 <= i < n && #[trigger] covers(cs[i], team, t) && cs[i].kind != ChargeKind::Building
                    && (forall|j: int|
                    i < j < n && covers(cs[j], team, t) ==> cs[j].kind == ChargeKind::Building)
                    implies best_charge(cs, team, t, n) == charge_of(cs[i].kind) by {
                assert(i < n - 1);
            }
        }
    }
}

/// Whether a charge can answer a pop: one ready, or one in use.
pub open spec fn answers(c: Charge) -> bool {
    c == Charge::Ready || c == Charge::Deployed
}

/// The colour that can pop while the other cannot answer.
pub open spec fn advantage_spec(red: Charge, blue: Charge) -> Option<Team> {
    let r = red == Charge::Ready && !answers(blue);
    let b = blue == Charge::Ready && !answers(red);
    if r && !b {
        Some(Team::Red)
    } else if b && !r {
        Some(Team::Blue)
    } else {
        None
    }
}

/// The uber advantage at `t` is a colour's exactly when that colour's best
/// charge is ready and the other colour's best charge is neither ready nor
/// in use (a charge already deployed answers a pop too); otherwise there is
/// none.
pub proof fn lemma_advantage_is_an_unanswered_charge(gs: GameState, t: int)
    ensures
        ({
            let red = best_charge(gs.charges@, Team::Red, t, gs.charges@.len() as int);
            let blue = best_charge(gs.charges@, Team::Blue, t, gs.charges@.len() as int);
            &&& advantage_spec(red, blue) == Some(Team::Red) <==> (red == Charge::Ready && blue
                != Charge::Ready && blue != Charge::Deployed)
            &&& advantage_spec(red, blue) == Some(Team::Blue) <==> (blue == Charge::Ready && red
                != Charge::Ready && red != Charge::Deployed)
            &&& advantage_spec(red, blue) is None <==> !(red == Charge::Ready && blue
                != Charge::Ready && blue != Charge::Deployed) && !(blue == Charge::Ready && red
                != Charge::Ready && red != Charge::Deployed)
        }),
{
}

/// The other colour.
pub fn other(team: Team) -> (r: Team)
    ensures
        r == other_team(team),
{
    team.other()
}

pub open spec fn is_sentry_spec(object: Seq<char>) -> bool {
    lower_s(object) == "obj_sentrygun"@
}

/// Whether a built object is a sentry gun, in any case.
pub fn is_sentry(object: &str) -> (b: bool)
    ensures
        b == is_sentry_spec(object@),
{
    let c = chars_of(object);
    let l = lowered(c.as_slice());
    let s = chars_of("obj_sentrygun");
    same(l.as_slice(), s.as_slice())
}

pub open spec fn alive(l: Life, t: int) -> bool {
    l.from <= t < l.to
}

/// The lives among the first `n` that hold `t`, in order.
pub open spec fn alive_upto(lives: Seq<Life>, t: int, n: int) -> Seq<Life>
    decreases n,
{
    if n <= 0 {
        Seq::empty()
    } else {
        let prev = alive_upto(lives, t, n - 1);
        if alive(lives[n - 1], t) {
            prev.push(lives[n - 1])
        } else {
            prev
        }
    }
}

/// How many of the first `n` lives are of `team` and hold `t`.
pub open spec fn count_alive(lives: Seq<Life>, team: Team, t: int, n: int) -> nat
    decreases n,
{
    if n <= 0 {
        0
    } else {
        count_alive(lives, team, t, n - 1) + if lives[n - 1].team == team && alive(lives[n - 1], t) {
            1nat
        } else {
            0nat
        }
    }
}

pub open spec fn up(s: Sentry, t: int) -> bool {
    s.from <= t < s.to
}

pub open spec fn count_up(ss: Seq<Sentry>, team: Team, t: int, n: int) -> nat
    decreases n,
{
    if n <= 0 {
        0
    } else {
        count_up(ss, team, t, n - 1) + if ss[n - 1].team == team && up(ss[n - 1], t) {
            1nat
        } else {
            0nat
        }
    }
}

/// The last of the first `n` rounds that started at or before `t`.
pub open spec fn round_index(rounds: Seq<Round>, t: int, n: int) -> Option<int>
    decreases n,
{
    if n <= 0 {
        None
    } else if rounds[n - 1].start <= t {
        Some(n - 1)
    } else {
        round_index(rounds, t, n - 1)
    }
}

proof fn lemma_count_alive_bound(lives: Seq<Life>, team: Team, t: int, n: int, m: int)
    requires
        0 <= n <= m,
    ensures
        count_alive(lives, team, t, n) <= count_alive(lives, team, t, m),
    decreases m - n,
{
    if n < m {
        lemma_count_alive_bound(lives, team, t, n, m - 1);
    }
}

proof fn lemma_count_up_bound(ss: Seq<Sentry>, team: Team, t: int, n: int, m: int)
    requires
        0 <= n <= m,
    ensures
        count_up(ss, team, t, n) <= count_up(ss, team, t, m),
    decreases m - n,
{
    if n < m {
        lemma_count_up_bound(ss, team, t, n, m - 1);
    }
}

impl GameState {
    /// Everyone alive at `t`. A player killed at `t` is not.
    pub fn alive_at(&self, t: i64) -> (r: Vec<Life>)
        ensures
            r@ == alive_upto(self.lives@, t as int, self.lives@.len() as int),
    {
        let mut out: Vec<Life> = Vec::new();
        let mut i: usize = 0;
        while i < self.lives.len()
            invariant
                i <= self.lives@.len(),
                out@ == alive_upto(self.lives@, t as int, i as int),
            decreases self.lives@.len() - i,
        {
            let l = self.lives[i];
            if l.from <= t && t < l.to {
                out.push(l);
            }
            i += 1;
        }
        out
    }

    /// Players alive per colour at `t`: `[red, blue]`.
    pub fn numbers_at(&self, t: i64) -> (r: [u8; 2])
        requires
            count_alive(self.lives@, Team::Red, t as int, self.lives@.len() as int) <= u8::MAX,
            count_alive(self.lives@, Team::Blue, t as int, self.lives@.len() as int) <= u8::MAX,
        ensures
            r[0] == count_alive(self.lives@, Team::Red, t as int, self.lives@.len() as int),
            r[1] == count_alive(self.lives@, Team::Blue, t as int, self.lives@.len() as int),
    {
        let ghost ls = self.lives@;
        let ghost n = ls.len() as int;
        let mut red: u8 = 0;
        let mut blue: u8 = 0;
        let mut i: usize = 0;
        while i < self.lives.len()
            invariant
                i <= ls.len(),
                ls == self.lives@,
                n == ls.len(),
                count_alive(ls, Team::Red, t as int, n) <= u8::MAX,
                count_alive(ls, Team::Blue, t as int, n) <= u8::MAX,
                red == count_alive(ls, Team::Red, t as int, i as int),
                blue == count_alive(ls, Team::Blue, t as int, i as int),
            decreases ls.len() - i,
        {
            proof {
                lemma_count_alive_bound(ls, Team::Red, t as int, i + 1, n);
                lemma_count_alive_bound(ls, Team::Blue, t as int, i + 1, n);
            }
            let l = self.lives[i];
            if l.from <= t && t < l.to {
                match l.team {
                    Team::Red => red += 1,
                    Team::Blue => blue += 1,
                }
            }
            i += 1;
        }
        [red, blue]
    }

    /// Whether a class is alive for a colour at `t`.
    pub fn class_alive(&self, team: Team, class: TfClass, t: i64) -> (r: bool)
        ensures
            r == exists|i: int|
                0 <= i < self.lives@.len() && #[trigger] alive(self.lives@[i], t as int)
                    && self.lives@[i].team == team && self.lives@[i].class == class,
    {
        let mut i: usize = 0;
        while i < self.lives.len()
            invariant
                i <= self.lives@.len(),
                forall|j: int|
                    0 <= j < i ==> !(#[trigger] alive(self.lives@[j], t as int) && self.lives@[j].team
                        == team && self.lives@[j].class == class),
            decreases self.lives@.len() - i,
        {
            let l = self.lives[i];
            if l.from <= t && t < l.to && l.team == team && l.class == class {
                assert(alive(self.lives@[i as int], t as int));
                return true;
            }
            i += 1;
        }
        false
    }

    /// A colour's charge at `t`: its best, if two Medics are up.
    pub fn charge_at(&self, team: Team, t: i64) -> (r: Charge)
        ensures
            r == best_charge(self.charges@, team, t as int, self.charges@.len() as int),
    {
        let mut best = Charge::NoMedic;
        let mut i: usize = 0;
        while i < self.charges.len()
            invariant
                i <= self.charges@.len(),
                best == best_charge(self.charges@, team, t as int, i as int),
            decreases self.charges@.len() - i,
        {
            let c = &self.charges[i];
            if c.team == team && c.from <= t && t < c.to {
                best = match c.kind {
                    ChargeKind::Building => match best {
                        Charge::NoMedic => Charge::Building,
                        other => other,
                    },
                    ChargeKind::Ready => Charge::Ready,
                    ChargeKind::Deployed => Charge::Deployed,
                };
            }
            i += 1;
        }
        best
    }

    /// The colour with the uber advantage at `t`: it can pop and the other
    /// cannot answer (building, or no Medic). Two ready charges, or a charge
    /// already in use, is no advantage.
    pub fn advantage_at(&self, t: i64) -> (r: Option<Team>)
        ensures
            r == advantage_spec(
                best_charge(self.charges@, Team::Red, t as int, self.charges@.len() as int),
                best_charge(self.charges@, Team::Blue, t as int, self.charges@.len() as int),
            ),
    {
        let red = self.charge_at(Team::Red, t);
        let blue = self.charge_at(Team::Blue, t);
        let red_answers = match blue {
            Charge::Ready | Charge::Deployed => true,
            _ => false,
        };
        let blue_answers = match red {
            Charge::Ready | Charge::Deployed => true,
            _ => false,
        };
        let r = red.ready() && !red_answers;
        let b = blue.ready() && !blue_answers;
        if r && !b {
            Some(Team::Red)
        } else if b && !r {
            Some(Team::Blue)
        } else {
            None
        }
    }

    /// Sentries up per colour at `t`: `[red, blue]`.
    pub fn sentries_at(&self, t: i64) -> (r: [u8; 2])
        requires
            count_up(self.sentries@, Team::Red, t as int, self.sentries@.len() as int) <= u8::MAX,
            count_up(self.sentries@, Team::Blue, t as int, self.sentries@.len() as int) <= u8::MAX,
        ensures
            r[0] == count_up(self.sentries@, Team::Red, t as int, self.sentries@.len() as int),
            r[1] == count_up(self.sentries@, Team::Blue, t as int, self.sentries@.len() as int),
    {
        let ghost ss = self.sentries@;
        let ghost n = ss.len() as int;
        let mut red: u8 = 0;
        let mut blue: u8 = 0;
        let mut i: usize = 0;
        while i < self.sentries.len()
            invariant
                i <= ss.len(),
                ss == self.sentries@,
                n == ss.len(),
                count_up(ss, Team::Red, t as int, n) <= u8::MAX,
                count_up(ss, Team::Blue, t as int, n) <= u8::MAX,
                red == count_up(ss, Team::Red, t as int, i as int),
                blue == count_up(ss, Team::Blue, t as int, i as int),
            decreases ss.len() - i,
        {
            proof {
                lemma_count_up_bound(ss, Team::Red, t as int, i + 1, n);
                lemma_count_up_bound(ss, Team::Blue, t as int, i + 1, n);
            }
            let s = self.sentries[i];
            if s.from <= t && t < s.to {
                match s.team {
                    Team::Red => red += 1,
                    Team::Blue => blue += 1,
                }
            }
            i += 1;
        }
        [red, blue]
    }

    /// The round `t` falls in, by log order: the last to start at or
    /// before it.
    pub fn round_at(&self, t: i64) -> (r: Option<&Round>)
        ensures
            match round_index(self.rounds@, t as int, self.rounds@.len() as int) {
                Some(i) => r == Some(&self.rounds@[i]),
                None => r is None,
            },
    {
        let mut i: usize = self.rounds.len();
        while i > 0
            invariant
                i <= self.rounds@.len(),
                round_index(self.rounds@, t as int, self.rounds@.len() as int) == round_index(
                    self.rounds@,
                    t as int,
                    i as int,
                ),
            decreases i,
        {
            if self.rounds[i - 1].start <= t {
                return Some(&self.rounds[i - 1]);
            }
            i -= 1;
        }
        None
    }
}


// ---------------------------------------------------------------------------
// Rebuilding the state from a raw log's lines
// ---------------------------------------------------------------------------

/// Time going back more than this starts a new part of a combined log. Lines
/// within one part can be a second or two out of order.
pub const PART_JUMP_S: i64 = 30;

/// A live server logs shots and heals every second; a silence this long is a
/// break between parts.
pub const GAP_S: i64 = 300;

/// A line time the rebuild can close a part after: one second later is
/// still an `i64`.
pub open spec fn time_ok(t: int) -> bool {
    t < i64::MAX
}

/// The builder's state as plain values: the state so far, and the open life,
/// charge span and sentry of each account, as (account, index) pairs.
#[verifier::ext_equal]
pub struct Build {
    pub out: StateV,
    pub alive: Seq<(u32, usize)>,
    pub charging: Seq<(u32, usize)>,
    pub sentry: Seq<(u32, usize)>,
    pub last: i64,
    pub round: int,
}

/// Where account `k` sits in an open-item table, from position `j` on.
pub open spec fn find_key(l: Seq<(u32, usize)>, k: u32, j: int) -> Option<int>
    decreases l.len() - j,
{
    if j < 0 || j >= l.len() {
        None
    } else if l[j].0 == k {
        Some(j)
    } else {
        find_key(l, k, j + 1)
    }
}

/// The table with `k` now open at `v`.
pub open spec fn put(l: Seq<(u32, usize)>, k: u32, v: usize) -> Seq<(u32, usize)> {
    match find_key(l, k, 0) {
        Some(j) => l.update(j, (k, v)),
        None => l.push((k, v)),
    }
}

pub open spec fn set_life(lives: Seq<Life>, i: int, at: i64, end: Option<LifeEnd>) -> Seq<Life> {
    if 0 <= i < lives.len() {
        let l = lives[i];
        lives.update(
            i,
            Life {
                account: l.account,
                team: l.team,
                class: l.class,
                from: l.from,
                to: at,
                end: match end {
                    Some(e) => e,
                    None => l.end,
                },
            },
        )
    } else {
        lives
    }
}

pub open spec fn set_charge(cs: Seq<ChargeSpan>, i: int, at: i64) -> Seq<ChargeSpan> {
    if 0 <= i < cs.len() {
        let c = cs[i];
        cs.update(
            i,
            ChargeSpan { medic: c.medic, team: c.team, kind: c.kind, from: c.from, to: at, medigun: c.medigun },
        )
    } else {
        cs
    }
}

pub open spec fn set_sentry(ss: Seq<Sentry>, i: int, at: i64, end: Option<SentryEnd>) -> Seq<Sentry> {
    if 0 <= i < ss.len() {
        let x = ss[i];
        ss.update(
            i,
            Sentry {
                owner: x.owner,
                team: x.team,
                from: x.from,
                to: at,
                end: match end {
                    Some(e) => e,
                    None => x.end,
                },
            },
        )
    } else {
        ss
    }
}

/// The lives open in `l[..n]` closed at `at`.
pub open spec fn close_lives(lives: Seq<Life>, l: Seq<(u32, usize)>, at: i64, end: Option<LifeEnd>, n: int) -> Seq<Life>
    decreases n,
{
    if n <= 0 {
        lives
    } else {
        set_life(close_lives(lives, l, at, end, n - 1), l[n - 1].1 as int, at, end)
    }
}

pub open spec fn close_charges(cs: Seq<ChargeSpan>, l: Seq<(u32, usize)>, at: i64, n: int) -> Seq<ChargeSpan>
    decreases n,
{
    if n <= 0 {
        cs
    } else {
        set_charge(close_charges(cs, l, at, n - 1), l[n - 1].1 as int, at)
    }
}

pub open spec fn close_sentries(
    ss: Seq<Sentry>,
    l: Seq<(u32, usize)>,
    at: i64,
    end: Option<SentryEnd>,
    n: int,
) -> Seq<Sentry>
    decreases n,
{
    if n <= 0 {
        ss
    } else {
        set_sentry(close_sentries(ss, l, at, end, n - 1), l[n - 1].1 as int, at, end)
    }
}

/// Everything open closed at `at`.
pub open spec fn close_all(b: Build, at: i64) -> Build {
    Build {
        out: StateV {
            lives: close_lives(b.out.lives, b.alive, at, None, b.alive.len() as int),
            charges: close_charges(b.out.charges, b.charging, at, b.charging.len() as int),
            sentries: close_sentries(b.out.sentries, b.sentry, at, None, b.sentry.len() as int),
            ..b.out
        },
        alive: Seq::empty(),
        charging: Seq::empty(),
        sentry: Seq::empty(),
        ..b
    }
}

/// The time of the next line. Time going back, or a long silence, starts
/// the next part of a combined log: whatever the last part left open closes.
pub open spec fn tick(b: Build, at: i64) -> Build {
    if at + PART_JUMP_S < b.last || (at > b.last + GAP_S && b.last > 0) {
        Build { last: at, ..close_all(b, (b.last + 1) as i64) }
    } else {
        Build {
            last: if at > b.last {
                at
            } else {
                b.last
            },
            ..b
        }
    }
}

/// The account's open life, if any, ends at `at`.
pub open spec fn close_life(b: Build, account: u32, at: i64, end: LifeEnd) -> Build {
    match find_key(b.alive, account, 0) {
        Some(j) => Build {
            out: StateV { lives: set_life(b.out.lives, b.alive[j].1 as int, at, Some(end)), ..b.out },
            alive: b.alive.remove(j),
            ..b
        },
        None => b,
    }
}

/// The Medic's open charge span, if any, ends at `at`.
pub open spec fn close_charge(b: Build, medic: u32, at: i64) -> Build {
    match find_key(b.charging, medic, 0) {
        Some(j) => Build {
            out: StateV { charges: set_charge(b.out.charges, b.charging[j].1 as int, at), ..b.out },
            charging: b.charging.remove(j),
            ..b
        },
        None => b,
    }
}

/// An account's life ends, and with it a Medic's charge.
pub open spec fn end_life(b: Build, account: u32, at: i64, end: LifeEnd) -> Build {
    close_charge(close_life(b, account, at, end), account, at)
}

pub open spec fn end_sentry(b: Build, owner: u32, at: i64, end: SentryEnd) -> Build {
    match find_key(b.sentry, owner, 0) {
        Some(j) => Build {
            out: StateV { sentries: set_sentry(b.out.sentries, b.sentry[j].1 as int, at, Some(end)), ..b.out },
            sentry: b.sentry.remove(j),
            ..b
        },
        None => b,
    }
}

/// A sentry goes up for `by`, unless one of theirs is already up.
pub open spec fn raise_sentry(b: Build, by: Actor, at: i64) -> Build {
    match (find_key(b.sentry, by.account, 0), by.team) {
        (None, Some(team)) => Build {
            out: StateV {
                sentries: b.out.sentries.push(
                    Sentry { owner: by.account, team, from: at, to: at, end: SentryEnd::LogEnd },
                ),
                ..b.out
            },
            sentry: put(b.sentry, by.account, b.out.sentries.len() as usize),
            ..b
        },
        _ => b,
    }
}

pub open spec fn spawn(b: Build, a: Actor, at: i64) -> Build {
    let b1 = end_life(b, a.account, at, LifeEnd::Respawned);
    match (a.team, a.class) {
        (Some(team), Some(class)) => {
            // An Engineer who comes back as another class loses their buildings.
            let b2 = if class != TfClass::Engineer {
                end_sentry(b1, a.account, at, SentryEnd::Cleared)
            } else {
                b1
            };
            let b3 = Build {
                out: StateV {
                    lives: b2.out.lives.push(
                        Life { account: a.account, team, class, from: at, to: at, end: LifeEnd::LogEnd },
                    ),
                    ..b2.out
                },
                alive: put(b2.alive, a.account, b2.out.lives.len() as usize),
                ..b2
            };
            if class == TfClass::Medic {
                Build {
                    out: StateV {
                        charges: b3.out.charges.push(
                            ChargeSpan {
                                medic: a.account,
                                team,
                                kind: ChargeKind::Building,
                                from: at,
                                to: at,
                                medigun: None,
                            },
                        ),
                        ..b3.out
                    },
                    charging: put(b3.charging, a.account, b3.out.charges.len() as usize),
                    ..b3
                }
            } else {
                b3
            }
        },
        _ => b1,
    }
}

/// Close the Medic's open span at `at` and open the next one. The medigun,
/// named at deploy, was also the one of the ready span before it.
pub open spec fn next_charge(b: Build, medic: u32, at: i64, kind: ChargeKind, medigun: Option<String>) -> Build {
    match find_key(b.charging, medic, 0) {
        None => b,
        Some(j) => {
            let i = b.charging[j].1 as int;
            let prev = b.out.charges[i];
            let gun = if medigun is Some && prev.kind == ChargeKind::Ready {
                medigun
            } else {
                prev.medigun
            };
            let cs = b.out.charges.update(
                i,
                ChargeSpan { medic: prev.medic, team: prev.team, kind: prev.kind, from: prev.from, to: at, medigun: gun },
            );
            Build {
                out: StateV {
                    charges: cs.push(ChargeSpan { medic, team: prev.team, kind, from: at, to: at, medigun }),
                    ..b.out
                },
                charging: put(b.charging, medic, cs.len() as usize),
                ..b
            }
        },
    }
}

/// The last round, closed at `at` if it is still open.
pub open spec fn end_round(rounds: Seq<Round>, at: i64, winner: Option<Option<Team>>) -> Seq<Round> {
    if rounds.len() > 0 && rounds.last().end is None {
        let r = rounds.last();
        rounds.update(
            rounds.len() - 1,
            Round {
                num: r.num,
                start: r.start,
                setup_end: r.setup_end,
                end: Some(at),
                winner: match winner {
                    Some(w) => w,
                    None => r.winner,
                },
            },
        )
    } else {
        rounds
    }
}

/// The builder with its last round closed at `at`, if still open.
pub open spec fn round_ended(b: Build, at: i64, winner: Option<Option<Team>>) -> Build {
    Build { out: StateV { rounds: end_round(b.out.rounds, at, winner), ..b.out }, ..b }
}

pub open spec fn on_event(b: Build, at: i64, kind: EventKind) -> Build {
    match kind {
        EventKind::RoundStart => {
            let round = b.round + 1;
            Build {
                out: StateV {
                    lives: close_lives(b.out.lives, b.alive, at, Some(LifeEnd::NewRound), b.alive.len() as int),
                    charges: close_charges(b.out.charges, b.charging, at, b.charging.len() as int),
                    sentries: close_sentries(
                        b.out.sentries,
                        b.sentry,
                        at,
                        Some(SentryEnd::Cleared),
                        b.sentry.len() as int,
                    ),
                    rounds: b.out.rounds.push(
                        Round { num: round as u32, start: at, setup_end: None, end: None, winner: None },
                    ),
                    ..b.out
                },
                alive: Seq::empty(),
                charging: Seq::empty(),
                sentry: Seq::empty(),
                round,
                ..b
            }
        },
        EventKind::SetupEnd => {
            let rs = b.out.rounds;
            if rs.len() > 0 {
                let r = rs.last();
                let set = Round {
                    num: r.num,
                    start: r.start,
                    setup_end: match r.setup_end {
                        Some(x) => Some(x),
                        None => Some(at),
                    },
                    end: r.end,
                    winner: r.winner,
                };
                Build { out: StateV { rounds: rs.update(rs.len() - 1, set), ..b.out }, ..b }
            } else {
                b
            }
        },
        EventKind::RoundWin(w) => round_ended(b, at, Some(w)),
        EventKind::RoundStalemate => round_ended(b, at, None),
        EventKind::GameOver => close_all(round_ended(b, at, None), at),
        EventKind::Spawn(a) => spawn(b, a, at),
        EventKind::Suicide(a) => end_life(b, a.account, at, LifeEnd::Suicide),
        EventKind::Left(account) => end_sentry(
            end_life(b, account, at, LifeEnd::Left),
            account,
            at,
            SentryEnd::Cleared,
        ),
        EventKind::FirstHeal(m) => {
            // Charge builds from the first heal, not from the spawn: the wait
            // before it holds at 0.
            let fresh = match find_key(b.charging, m.account, 0) {
                Some(j) => {
                    let c = b.out.charges[b.charging[j].1 as int];
                    c.kind == ChargeKind::Building && c.from < at
                },
                None => false,
            };
            if fresh {
                next_charge(b, m.account, at, ChargeKind::Building, None)
            } else {
                b
            }
        },
        EventKind::ChargeReady(m) => next_charge(b, m.account, at, ChargeKind::Ready, None),
        EventKind::ChargeDeployed { medic, medigun } => next_charge(
            b,
            medic.account,
            at,
            ChargeKind::Deployed,
            Some(medigun),
        ),
        EventKind::ChargeEnded(m) => next_charge(b, m.account, at, ChargeKind::Building, None),
        EventKind::MedicDied(m) => close_charge(b, m.account, at),
        EventKind::LostAdvantage { medic, secs } => Build {
            out: StateV {
                lost_advantages: b.out.lost_advantages.push(
                    LostAdvantage { at, medic: medic.account, team: medic.team, secs },
                ),
                ..b.out
            },
            ..b
        },
        EventKind::PointCaptured { team, cp, name, cappers } => Build {
            out: StateV {
                caps: b.out.caps.push(
                    CapV { at, round: b.round as u32, team, cp, name: name@, cappers: cappers@ },
                ),
                ..b.out
            },
            ..b
        },
        EventKind::CaptureBlocked => b,
        EventKind::Built { by, object } => if is_sentry_spec(object@) {
            raise_sentry(b, by, at)
        } else {
            b
        },
        EventKind::ObjectKilled { by, owner, object } => match owner {
            Some(o) => if is_sentry_spec(object@) {
                end_sentry(b, o, at, SentryEnd::Destroyed { by: by.account })
            } else {
                b
            },
            None => b,
        },
        EventKind::Detonated { by, object } => if is_sentry_spec(object@) {
            end_sentry(b, by.account, at, SentryEnd::Detonated)
        } else {
            b
        },
        EventKind::Carried { by, object, picked } => if !is_sentry_spec(object@) {
            b
        } else if picked {
            end_sentry(b, by.account, at, SentryEnd::Carried)
        } else {
            raise_sentry(b, by, at)
        },
    }
}

/// A kill line: the victim's life ends, unless it was a Dead Ringer feign.
pub open spec fn on_kill(b: Build, k: Kill) -> Build {
    let b1 = tick(b, k.at);
    if opt_text(k.custom) == Some("feign_death"@) {
        b1
    } else {
        end_life(b1, k.victim.account, k.at, LifeEnd::Killed { by: k.killer.account })
    }
}


/// A line of the raw log that the state follows: a kill or an event, by its
/// index in the log's kills or events.
#[derive(Debug, Clone, Copy, PartialEq, Eq, Structural)]
pub enum Line {
    Kill(usize),
    Event(usize),
}

pub open spec fn line_time(l: Line, kills: Seq<Kill>, events: Seq<Event>) -> i64 {
    match l {
        Line::Kill(i) => kills[i as int].at,
        Line::Event(j) => events[j as int].at,
    }
}

/// How many kills come before the `m`-th event's line: those it says came
/// before it, and never fewer than before the event ahead of it.
pub open spec fn emitted(nk: int, events: Seq<Event>, m: int) -> int
    decreases m,
{
    if m <= 0 {
        0
    } else {
        let prev = emitted(nk, events, m - 1);
        let upto = if (events[m - 1].after_kills as int) < nk {
            events[m - 1].after_kills as int
        } else {
            nk
        };
        if upto > prev {
            upto
        } else {
            prev
        }
    }
}

/// Kill lines `a..b`.
pub open spec fn kill_lines(a: int, b: int) -> Seq<Line> {
    if a < b {
        Seq::new((b - a) as nat, |i: int| Line::Kill((a + i) as usize))
    } else {
        Seq::empty()
    }
}

/// The lines up to and including the `m`-th event.
pub open spec fn lines_upto(nk: int, events: Seq<Event>, m: int) -> Seq<Line>
    decreases m,
{
    if m <= 0 {
        Seq::empty()
    } else {
        lines_upto(nk, events, m - 1) + kill_lines(emitted(nk, events, m - 1), emitted(nk, events, m)) + seq![
            Line::Event((m - 1) as usize),
        ]
    }
}

/// Kills and events in file order: kills written before an event's line
/// happened before it.
pub open spec fn lines_of(nk: int, events: Seq<Event>) -> Seq<Line> {
    lines_upto(nk, events, events.len() as int) + kill_lines(emitted(nk, events, events.len() as int), nk)
}

pub open spec fn times_of(lines: Seq<Line>, kills: Seq<Kill>, events: Seq<Event>) -> Seq<i64> {
    Seq::new(lines.len(), |i: int| line_time(lines[i], kills, events))
}

/// The part of a combined log and the latest time so far, after the first
/// `n` lines: a new part starts where time goes backwards.
pub open spec fn part_scan(ts: Seq<i64>, n: int) -> (int, int)
    decreases n,
{
    if n <= 0 {
        (0, i64::MIN as int)
    } else {
        let (part, last) = part_scan(ts, n - 1);
        let at = ts[n - 1] as int;
        let part2 = if at + PART_JUMP_S < last {
            part + 1
        } else {
            part
        };
        let last2 = if at > last {
            at
        } else {
            last
        };
        let last3 = if part2 > 0 && at + PART_JUMP_S < last2 {
            at
        } else {
            last2
        };
        (part2, last3)
    }
}

/// The part line `i` belongs to.
pub open spec fn part_of(ts: Seq<i64>, i: int) -> int {
    part_scan(ts, i + 1).0
}

pub open spec fn starts_round(l: Line, events: Seq<Event>) -> bool {
    l matches Line::Event(j) && events[j as int].kind is RoundStart
}

/// A part whose every round also starts in an earlier part: the same match
/// appended twice, which some raw logs hold.
pub open spec fn is_repeat(lines: Seq<Line>, ts: Seq<i64>, events: Seq<Event>, p: int) -> bool {
    &&& p >= 1
    &&& exists|i: int| 0 <= i < lines.len() && part_of(ts, i) == p && #[trigger] starts_round(lines[i], events)
    &&& forall|i: int|
        0 <= i < lines.len() && part_of(ts, i) == p && #[trigger] starts_round(lines[i], events) ==> exists|
            i2: int,
        |
            0 <= i2 < lines.len() && part_of(ts, i2) < p && #[trigger] starts_round(lines[i2], events) && ts[i2]
                == ts[i]
}

pub open spec fn empty_state() -> StateV {
    StateV {
        lives: Seq::empty(),
        charges: Seq::empty(),
        rounds: Seq::empty(),
        caps: Seq::empty(),
        sentries: Seq::empty(),
        lost_advantages: Seq::empty(),
    }
}

pub open spec fn fresh() -> Build {
    Build {
        out: empty_state(),
        alive: Seq::empty(),
        charging: Seq::empty(),
        sentry: Seq::empty(),
        last: 0,
        round: 0,
    }
}

pub open spec fn on_line(b: Build, l: Line, kills: Seq<Kill>, events: Seq<Event>) -> Build {
    match l {
        Line::Kill(i) => on_kill(b, kills[i as int]),
        Line::Event(j) => {
            let e = events[j as int];
            on_event(tick(b, e.at), e.at, e.kind)
        },
    }
}

/// The builder after the first `n` lines, the parts that repeat an earlier
/// one left out.
pub open spec fn replay(kills: Seq<Kill>, events: Seq<Event>, lines: Seq<Line>, ts: Seq<i64>, n: int) -> Build
    decreases n,
{
    if n <= 0 {
        fresh()
    } else {
        let b = replay(kills, events, lines, ts, n - 1);
        if is_repeat(lines, ts, events, part_of(ts, n - 1)) {
            b
        } else {
            on_line(b, lines[n - 1], kills, events)
        }
    }
}

/// A life cut short by a respawn or a round start before it began is no life.
pub open spec fn keeps_life(l: Life) -> bool {
    l.to > l.from || !(l.end == LifeEnd::Respawned || l.end == LifeEnd::NewRound)
}

/// An empty charge span is no span, but a Vaccinator's instant pops are real.
pub open spec fn keeps_charge(c: ChargeSpan) -> bool {
    c.to > c.from || c.kind == ChargeKind::Deployed
}

pub open spec fn keeps_sentry(s: Sentry) -> bool {
    s.to > s.from
}

pub open spec fn kept_lives(s: Seq<Life>, n: int) -> Seq<Life>
    decreases n,
{
    if n <= 0 {
        Seq::empty()
    } else if keeps_life(s[n - 1]) {
        kept_lives(s, n - 1).push(s[n - 1])
    } else {
        kept_lives(s, n - 1)
    }
}

pub open spec fn kept_charges(s: Seq<ChargeSpan>, n: int) -> Seq<ChargeSpan>
    decreases n,
{
    if n <= 0 {
        Seq::empty()
    } else if keeps_charge(s[n - 1]) {
        kept_charges(s, n - 1).push(s[n - 1])
    } else {
        kept_charges(s, n - 1)
    }
}

pub open spec fn kept_sentries(s: Seq<Sentry>, n: int) -> Seq<Sentry>
    decreases n,
{
    if n <= 0 {
        Seq::empty()
    } else if keeps_sentry(s[n - 1]) {
        kept_sentries(s, n - 1).push(s[n - 1])
    } else {
        kept_sentries(s, n - 1)
    }
}

/// Close whatever is still open just after the last line, and drop what
/// never lasted.
pub open spec fn finish(b: Build) -> StateV {
    let c = close_all(b, (b.last + 1) as i64);
    StateV {
        lives: kept_lives(c.out.lives, c.out.lives.len() as int),
        charges: kept_charges(c.out.charges, c.out.charges.len() as int),
        sentries: kept_sentries(c.out.sentries, c.out.sentries.len() as int),
        ..c.out
    }
}

/// The game state a raw log's kills and events give.
pub open spec fn build_spec(kills: Seq<Kill>, events: Seq<Event>) -> StateV {
    let lines = lines_of(kills.len() as int, events);
    let ts = times_of(lines, kills, events);
    finish(replay(kills, events, lines, ts, lines.len() as int))
}


// ---------------------------------------------------------------------------
// The builder
// ---------------------------------------------------------------------------

fn find_in(l: &Vec<(u32, usize)>, k: u32) -> (r: Option<usize>)
    ensures
        match find_key(l@, k, 0) {
            Some(j) => r == Some(j as usize) && 0 <= j < l.len() && l@[j].0 == k,
            None => r is None,
        },
{
    let mut j: usize = 0;
    while j < l.len()
        invariant
            j <= l@.len(),
            find_key(l@, k, 0) == find_key(l@, k, j as int),
        decreases l@.len() - j,
    {
        if l[j].0 == k {
            return Some(j);
        }
        j += 1;
    }
    None
}

fn put_in(l: &mut Vec<(u32, usize)>, k: u32, v: usize)
    ensures
        final(l)@ == put(old(l)@, k, v),
{
    match find_in(l, k) {
        Some(j) => {
            l.set(j, (k, v));
        },
        None => {
            l.push((k, v));
        },
    }
}

/// Every index in a table points into a list of `len` items.
pub open spec fn points_into(l: Seq<(u32, usize)>, len: int) -> bool {
    forall|j: int| 0 <= j < l.len() ==> (#[trigger] l[j]).1 < len
}

proof fn lemma_put_points(l: Seq<(u32, usize)>, k: u32, v: usize, len: int)
    requires
        points_into(l, len),
        v < len,
    ensures
        points_into(put(l, k, v), len),
{
    let r = put(l, k, v);
    lemma_find_bounds(l, k, 0);
    assert forall|j: int| 0 <= j < r.len() implies (#[trigger] r[j]).1 < len by {
        match find_key(l, k, 0) {
            Some(x) => {
                if j != x {
                    assert(r[j] == l[j]);
                }
            },
            None => {
                if j < l.len() {
                    assert(r[j] == l[j]);
                }
            },
        }
    }
}

proof fn lemma_find_bounds(l: Seq<(u32, usize)>, k: u32, j: int)
    requires
        0 <= j,
    ensures
        match find_key(l, k, j) {
            Some(x) => j <= x < l.len() && l[x].0 == k,
            None => true,
        },
    decreases l.len() - j,
{
    if j < l.len() && l[j].0 != k {
        lemma_find_bounds(l, k, j + 1);
    }
}

proof fn lemma_remove_points(l: Seq<(u32, usize)>, j: int, len: int)
    requires
        points_into(l, len),
        0 <= j < l.len(),
    ensures
        points_into(l.remove(j), len),
{
    let r = l.remove(j);
    assert forall|x: int| 0 <= x < r.len() implies (#[trigger] r[x]).1 < len by {
        if x < j {
            assert(r[x] == l[x]);
        } else {
            assert(r[x] == l[x + 1]);
        }
    }
}

proof fn lemma_close_lens(b: Build, at: i64, le: Option<LifeEnd>, se: Option<SentryEnd>, n: int)
    requires
        0 <= n,
    ensures
        close_lives(b.out.lives, b.alive, at, le, n).len() == b.out.lives.len(),
        close_charges(b.out.charges, b.charging, at, n).len() == b.out.charges.len(),
        close_sentries(b.out.sentries, b.sentry, at, se, n).len() == b.out.sentries.len(),
    decreases n,
{
    if n > 0 {
        lemma_close_lens(b, at, le, se, n - 1);
    }
}

/// The builder's own invariant: every open item is in the state, and the
/// round counter counts the rounds.
pub open spec fn sound(b: Build) -> bool {
    &&& points_into(b.alive, b.out.lives.len() as int)
    &&& points_into(b.charging, b.out.charges.len() as int)
    &&& points_into(b.sentry, b.out.sentries.len() as int)
    &&& time_ok(b.last as int)
    &&& b.round == b.out.rounds.len()
    &&& numbered(b.out.rounds)
}

/// Rounds are numbered from 1 in log order.
pub open spec fn numbered(rounds: Seq<Round>) -> bool {
    forall|i: int| 0 <= i < rounds.len() ==> (#[trigger] rounds[i]).num == i + 1
}

struct Builder {
    out: GameState,
    /// Open life per account: index into `out.lives`.
    alive: Vec<(u32, usize)>,
    /// Open charge span per Medic: index into `out.charges`.
    charging: Vec<(u32, usize)>,
    /// Open sentry per Engineer: index into `out.sentries`.
    sentry: Vec<(u32, usize)>,
    /// The latest time seen, for closing whatever is open at the end.
    last: i64,
    round: u32,
}

impl View for Builder {
    type V = Build;

    closed spec fn view(&self) -> Build {
        Build {
            out: self.out@,
            alive: self.alive@,
            charging: self.charging@,
            sentry: self.sentry@,
            last: self.last,
            round: self.round as int,
        }
    }
}

impl Builder {
    fn close_charges_in(&mut self, at: i64)
        requires
            points_into(old(self).charging@, old(self).out.charges@.len() as int),
        ensures
            final(self).out.charges@ == close_charges(
                old(self).out.charges@,
                old(self).charging@,
                at,
                old(self).charging@.len() as int,
            ),
            final(self).out.charges@.len() == old(self).out.charges@.len(),
            final(self).charging@ == Seq::<(u32, usize)>::empty(),
            final(self).out.lives@ == old(self).out.lives@,
            final(self).out.rounds@ == old(self).out.rounds@,
            final(self).out.caps@ == old(self).out.caps@,
            final(self).out.sentries@ == old(self).out.sentries@,
            final(self).out.lost_advantages@ == old(self).out.lost_advantages@,
            final(self).alive@ == old(self).alive@,
            final(self).sentry@ == old(self).sentry@,
            final(self).last == old(self).last,
            final(self).round == old(self).round,
    {
        let mut j: usize = 0;
        while j < self.charging.len()
            invariant
                j <= self.charging@.len(),
                self.charging@ == old(self).charging@,
                points_into(self.charging@, old(self).out.charges@.len() as int),
                self.out.charges@ == close_charges(old(self).out.charges@, self.charging@, at, j as int),
                self.out.charges@.len() == old(self).out.charges@.len(),
                self.out.lives@ == old(self).out.lives@,
                self.out.rounds@ == old(self).out.rounds@,
                self.out.caps@ == old(self).out.caps@,
                self.out.sentries@ == old(self).out.sentries@,
                self.out.lost_advantages@ == old(self).out.lost_advantages@,
                self.alive@ == old(self).alive@,
                self.sentry@ == old(self).sentry@,
                self.last == old(self).last,
                self.round == old(self).round,
            decreases self.charging@.len() - j,
        {
            let i = self.charging[j].1;
            assert(self.charging@[j as int].1 < self.out.charges@.len());
            self.set_charge_to(i, at);
            j += 1;
        }
        self.charging = Vec::new();
    }

    fn set_charge_to(&mut self, i: usize, at: i64)
        requires
            i < old(self).out.charges@.len(),
        ensures
            final(self).out.charges@ == set_charge(old(self).out.charges@, i as int, at),
            final(self).out.lives@ == old(self).out.lives@,
            final(self).out.rounds@ == old(self).out.rounds@,
            final(self).out.caps@ == old(self).out.caps@,
            final(self).out.sentries@ == old(self).out.sentries@,
            final(self).out.lost_advantages@ == old(self).out.lost_advantages@,
            final(self).alive@ == old(self).alive@,
            final(self).charging@ == old(self).charging@,
            final(self).sentry@ == old(self).sentry@,
            final(self).last == old(self).last,
            final(self).round == old(self).round,
    {
        let c = &mut self.out.charges[i];
        c.to = at;
    }

    fn close_sentries_in(&mut self, at: i64, end: Option<SentryEnd>)
        requires
            points_into(old(self).sentry@, old(self).out.sentries@.len() as int),
        ensures
            final(self).out.sentries@ == close_sentries(
                old(self).out.sentries@,
                old(self).sentry@,
                at,
                end,
                old(self).sentry@.len() as int,
            ),
            final(self).out.sentries@.len() == old(self).out.sentries@.len(),
            final(self).sentry@ == Seq::<(u32, usize)>::empty(),
            final(self).out.lives@ == old(self).out.lives@,
            final(self).out.charges@ == old(self).out.charges@,
            final(self).out.rounds@ == old(self).out.rounds@,
            final(self).out.caps@ == old(self).out.caps@,
            final(self).out.lost_advantages@ == old(self).out.lost_advantages@,
            final(self).alive@ == old(self).alive@,
            final(self).charging@ == old(self).charging@,
            final(self).last == old(self).last,
            final(self).round == old(self).round,
    {
        let mut j: usize = 0;
        while j < self.sentry.len()
            invariant
                j <= self.sentry@.len(),
                self.sentry@ == old(self).sentry@,
                points_into(self.sentry@, old(self).out.sentries@.len() as int),
                self.out.sentries@ == close_sentries(old(self).out.sentries@, self.sentry@, at, end, j as int),
                self.out.sentries@.len() == old(self).out.sentries@.len(),
                self.out.lives@ == old(self).out.lives@,
                self.out.charges@ == old(self).out.charges@,
                self.out.rounds@ == old(self).out.rounds@,
                self.out.caps@ == old(self).out.caps@,
                self.out.lost_advantages@ == old(self).out.lost_advantages@,
                self.alive@ == old(self).alive@,
                self.charging@ == old(self).charging@,
                self.last == old(self).last,
                self.round == old(self).round,
            decreases self.sentry@.len() - j,
        {
            let i = self.sentry[j].1;
            assert(self.sentry@[j as int].1 < self.out.sentries@.len());
            let mut x = self.out.sentries[i];
            x.to = at;
            match end {
                Some(e) => x.end = e,
                None => {},
            }
            self.out.sentries.set(i, x);
            j += 1;
        }
        self.sentry = Vec::new();
    }

    fn close_lives_in(&mut self, at: i64, end: Option<LifeEnd>)
        requires
            points_into(old(self).alive@, old(self).out.lives@.len() as int),
        ensures
            final(self).out.lives@ == close_lives(
                old(self).out.lives@,
                old(self).alive@,
                at,
                end,
                old(self).alive@.len() as int,
            ),
            final(self).out.lives@.len() == old(self).out.lives@.len(),
            final(self).alive@ == Seq::<(u32, usize)>::empty(),
            final(self).out.charges@ == old(self).out.charges@,
            final(self).out.rounds@ == old(self).out.rounds@,
            final(self).out.caps@ == old(self).out.caps@,
            final(self).out.sentries@ == old(self).out.sentries@,
            final(self).out.lost_advantages@ == old(self).out.lost_advantages@,
            final(self).charging@ == old(self).charging@,
            final(self).sentry@ == old(self).sentry@,
            final(self).last == old(self).last,
            final(self).round == old(self).round,
    {
        let mut j: usize = 0;
        while j < self.alive.len()
            invariant
                j <= self.alive@.len(),
                self.alive@ == old(self).alive@,
                points_into(self.alive@, old(self).out.lives@.len() as int),
                self.out.lives@ == close_lives(old(self).out.lives@, self.alive@, at, end, j as int),
                self.out.lives@.len() == old(self).out.lives@.len(),
                self.out.charges@ == old(self).out.charges@,
                self.out.rounds@ == old(self).out.rounds@,
                self.out.caps@ == old(self).out.caps@,
                self.out.sentries@ == old(self).out.sentries@,
                self.out.lost_advantages@ == old(self).out.lost_advantages@,
                self.charging@ == old(self).charging@,
                self.sentry@ == old(self).sentry@,
                self.last == old(self).last,
                self.round == old(self).round,
            decreases self.alive@.len() - j,
        {
            let i = self.alive[j].1;
            assert(self.alive@[j as int].1 < self.out.lives@.len());
            let mut l = self.out.lives[i];
            l.to = at;
            match end {
                Some(e) => l.end = e,
                None => {},
            }
            self.out.lives.set(i, l);
            j += 1;
        }
        self.alive = Vec::new();
    }
}


impl Builder {
    fn new() -> (b: Builder)
        ensures
            b@ == fresh(),
            sound(b@),
    {
        let b = Builder {
            out: GameState {
                lives: Vec::new(),
                charges: Vec::new(),
                rounds: Vec::new(),
                caps: Vec::new(),
                sentries: Vec::new(),
                lost_advantages: Vec::new(),
            },
            alive: Vec::new(),
            charging: Vec::new(),
            sentry: Vec::new(),
            last: 0,
            round: 0,
        };
        assert(b@.out =~= empty_state());
        b
    }

    fn close_all(&mut self, at: i64)
        requires
            sound(old(self)@),
        ensures
            final(self)@ == close_all(old(self)@, at),
            sound(final(self)@),
    {
        proof {
            lemma_close_lens(old(self)@, at, None, None, old(self).alive@.len() as int);
        }
        self.close_lives_in(at, None);
        self.close_charges_in(at);
        self.close_sentries_in(at, None);
        assert(self@.out =~= close_all(old(self)@, at).out);
    }

    fn tick(&mut self, at: i64)
        requires
            sound(old(self)@),
            time_ok(at as int),
        ensures
            final(self)@ == tick(old(self)@, at),
            sound(final(self)@),
    {
        if (at as i128) + (PART_JUMP_S as i128) < self.last as i128 || ((at as i128) > self.last as i128
            + GAP_S as i128 && self.last > 0) {
            let end = self.last + 1;
            self.close_all(end);
            self.last = at;
        } else if at > self.last {
            self.last = at;
        }
    }

    fn close_life(&mut self, account: u32, at: i64, end: LifeEnd)
        requires
            sound(old(self)@),
        ensures
            final(self)@ == close_life(old(self)@, account, at, end),
            sound(final(self)@),
    {
        let ghost b0 = self@;
        match find_in(&self.alive, account) {
            Some(j) => {
                let i = self.alive[j].1;
                assert(self.alive@[j as int].1 < self.out.lives@.len());
                let mut l = self.out.lives[i];
                l.to = at;
                l.end = end;
                self.out.lives.set(i, l);
                self.alive.remove(j);
                proof {
                    lemma_remove_points(b0.alive, j as int, b0.out.lives.len() as int);
                }
                assert(self@ =~= close_life(b0, account, at, end));
            },
            None => {},
        }
    }

    fn close_charge(&mut self, medic: u32, at: i64)
        requires
            sound(old(self)@),
        ensures
            final(self)@ == close_charge(old(self)@, medic, at),
            sound(final(self)@),
    {
        let ghost b0 = self@;
        match find_in(&self.charging, medic) {
            Some(j) => {
                let i = self.charging[j].1;
                assert(self.charging@[j as int].1 < self.out.charges@.len());
                self.set_charge_to(i, at);
                self.charging.remove(j);
                proof {
                    lemma_remove_points(b0.charging, j as int, b0.out.charges.len() as int);
                }
                assert(self@ =~= close_charge(b0, medic, at));
            },
            None => {},
        }
    }

    fn end_life(&mut self, account: u32, at: i64, end: LifeEnd)
        requires
            sound(old(self)@),
        ensures
            final(self)@ == end_life(old(self)@, account, at, end),
            sound(final(self)@),
    {
        self.close_life(account, at, end);
        self.close_charge(account, at);
    }

    fn end_sentry(&mut self, owner: u32, at: i64, end: SentryEnd)
        requires
            sound(old(self)@),
        ensures
            final(self)@ == end_sentry(old(self)@, owner, at, end),
            sound(final(self)@),
    {
        let ghost b0 = self@;
        match find_in(&self.sentry, owner) {
            Some(j) => {
                let i = self.sentry[j].1;
                assert(self.sentry@[j as int].1 < self.out.sentries@.len());
                let mut x = self.out.sentries[i];
                x.to = at;
                x.end = end;
                self.out.sentries.set(i, x);
                self.sentry.remove(j);
                proof {
                    lemma_remove_points(b0.sentry, j as int, b0.out.sentries.len() as int);
                }
            },
            None => {},
        }
    }

    fn raise_sentry(&mut self, by: Actor, at: i64)
        requires
            sound(old(self)@),
        ensures
            final(self)@ == raise_sentry(old(self)@, by, at),
            sound(final(self)@),
    {
        let ghost b0 = self@;
        if find_in(&self.sentry, by.account).is_none() {
            if let Some(team) = by.team {
                let n = self.out.sentries.len();
                put_in(&mut self.sentry, by.account, n);
                self.out.sentries.push(Sentry { owner: by.account, team, from: at, to: at, end: SentryEnd::LogEnd });
                proof {
                    assert(points_into(b0.sentry, n + 1)) by {
                        assert forall|j: int| 0 <= j < b0.sentry.len() implies (#[trigger] b0.sentry[j]).1 < n + 1 by {
                            assert(b0.sentry[j].1 < n);
                        }
                    }
                    lemma_put_points(b0.sentry, by.account, n, n + 1);
                }
            }
        }
    }
}


impl Builder {
    fn spawn(&mut self, a: Actor, at: i64)
        requires
            sound(old(self)@),
        ensures
            final(self)@ == spawn(old(self)@, a, at),
            sound(final(self)@),
    {
        self.end_life(a.account, at, LifeEnd::Respawned);
        if let (Some(team), Some(class)) = (a.team, a.class) {
            // An Engineer who comes back as another class loses their buildings.
            if class != TfClass::Engineer {
                self.end_sentry(a.account, at, SentryEnd::Cleared);
            }
            let ghost b2 = self@;
            let n = self.out.lives.len();
            put_in(&mut self.alive, a.account, n);
            self.out.lives.push(Life { account: a.account, team, class, from: at, to: at, end: LifeEnd::LogEnd });
            proof {
                assert(points_into(b2.alive, n + 1)) by {
                    assert forall|j: int| 0 <= j < b2.alive.len() implies (#[trigger] b2.alive[j]).1 < n + 1 by {
                        assert(b2.alive[j].1 < n);
                    }
                }
                lemma_put_points(b2.alive, a.account, n, n + 1);
            }
            if class == TfClass::Medic {
                let ghost b3 = self@;
                let m = self.out.charges.len();
                put_in(&mut self.charging, a.account, m);
                self.out.charges.push(
                    ChargeSpan { medic: a.account, team, kind: ChargeKind::Building, from: at, to: at, medigun: None },
                );
                proof {
                    assert(points_into(b3.charging, m + 1)) by {
                        assert forall|j: int| 0 <= j < b3.charging.len() implies (#[trigger] b3.charging[j]).1 < m + 1 by {
                            assert(b3.charging[j].1 < m);
                        }
                    }
                    lemma_put_points(b3.charging, a.account, m, m + 1);
                }
            }
        }
    }

    fn next_charge(&mut self, medic: u32, at: i64, kind: ChargeKind, medigun: Option<String>)
        requires
            sound(old(self)@),
        ensures
            final(self)@ == next_charge(old(self)@, medic, at, kind, medigun),
            sound(final(self)@),
    {
        let ghost b0 = self@;
        let j = match find_in(&self.charging, medic) {
            Some(j) => j,
            None => return ,
        };
        let i = self.charging[j].1;
        assert(self.charging@[j as int].1 < self.out.charges@.len());
        let team = self.out.charges[i].team;
        let was_ready = self.out.charges[i].kind == ChargeKind::Ready;
        {
            let c = &mut self.out.charges[i];
            c.to = at;
            if was_ready {
                if let Some(m) = &medigun {
                    c.medigun = Some(m.clone());
                }
            }
        }
        let ghost b1 = self@;
        let n = self.out.charges.len();
        put_in(&mut self.charging, medic, n);
        self.out.charges.push(ChargeSpan { medic, team, kind, from: at, to: at, medigun });
        proof {
            assert(points_into(b1.charging, n + 1)) by {
                assert forall|x: int| 0 <= x < b1.charging.len() implies (#[trigger] b1.charging[x]).1 < n + 1 by {
                    assert(b1.charging[x].1 < n);
                }
            }
            lemma_put_points(b1.charging, medic, n, n + 1);
        }
        assert(self@ =~= next_charge(b0, medic, at, kind, medigun));
    }

    fn end_round(&mut self, at: i64, winner: Option<Option<Team>>)
        requires
            sound(old(self)@),
        ensures
            final(self)@ == round_ended(old(self)@, at, winner),
            sound(final(self)@),
    {
        let n = self.out.rounds.len();
        if n > 0 {
            let mut r = self.out.rounds[n - 1];
            if r.end.is_none() {
                r.end = Some(at);
                if let Some(w) = winner {
                    r.winner = w;
                }
                self.out.rounds.set(n - 1, r);
            }
        }
    }

    fn setup_end(&mut self, at: i64)
        requires
            sound(old(self)@),
        ensures
            final(self)@ == on_event(old(self)@, at, EventKind::SetupEnd),
            sound(final(self)@),
    {
        let n = self.out.rounds.len();
        if n > 0 {
            let mut r = self.out.rounds[n - 1];
            if r.setup_end.is_none() {
                r.setup_end = Some(at);
            }
            self.out.rounds.set(n - 1, r);
        }
        assert(self@ =~= on_event(old(self)@, at, EventKind::SetupEnd));
    }

    fn round_start(&mut self, at: i64)
        requires
            sound(old(self)@),
            old(self).round < u32::MAX,
        ensures
            final(self)@ == on_event(old(self)@, at, EventKind::RoundStart),
            sound(final(self)@),
    {
        self.round = self.round + 1;
        self.out.rounds.push(Round { num: self.round, start: at, setup_end: None, end: None, winner: None });
        self.close_lives_in(at, Some(LifeEnd::NewRound));
        self.close_charges_in(at);
        self.close_sentries_in(at, Some(SentryEnd::Cleared));
        assert(self@ =~= on_event(old(self)@, at, EventKind::RoundStart));
    }
}


impl Builder {
    fn event(&mut self, at: i64, kind: &EventKind)
        requires
            sound(old(self)@),
            old(self).round < u32::MAX,
        ensures
            final(self)@ == on_event(old(self)@, at, *kind),
            sound(final(self)@),
    {
        match kind {
            EventKind::RoundStart => self.round_start(at),
            EventKind::SetupEnd => self.setup_end(at),
            EventKind::RoundWin(w) => self.end_round(at, Some(*w)),
            EventKind::RoundStalemate => self.end_round(at, None),
            EventKind::GameOver => {
                self.end_round(at, None);
                // The map is over: nothing carries into whatever the file holds next.
                self.close_all(at);
            },
            EventKind::Spawn(a) => self.spawn(*a, at),
            EventKind::Suicide(a) => self.end_life(a.account, at, LifeEnd::Suicide),
            EventKind::Left(account) => {
                self.end_life(*account, at, LifeEnd::Left);
                self.end_sentry(*account, at, SentryEnd::Cleared);
            },
            EventKind::FirstHeal(m) => {
                // Charge builds from the first heal, not from the spawn: the
                // wait before it holds at 0.
                let fresh = match find_in(&self.charging, m.account) {
                    Some(j) => {
                        let i = self.charging[j].1;
                        assert(self.charging@[j as int].1 < self.out.charges@.len());
                        let c = &self.out.charges[i];
                        c.kind == ChargeKind::Building && c.from < at
                    },
                    None => false,
                };
                if fresh {
                    self.next_charge(m.account, at, ChargeKind::Building, None);
                }
            },
            EventKind::ChargeReady(m) => self.next_charge(m.account, at, ChargeKind::Ready, None),
            EventKind::ChargeDeployed { medic, medigun } => {
                self.next_charge(medic.account, at, ChargeKind::Deployed, Some(medigun.clone()));
            },
            EventKind::ChargeEnded(m) => self.next_charge(m.account, at, ChargeKind::Building, None),
            EventKind::MedicDied(m) => self.close_charge(m.account, at),
            EventKind::LostAdvantage { medic, secs } => {
                self.out.lost_advantages.push(
                    LostAdvantage { at, medic: medic.account, team: medic.team, secs: *secs },
                );
                assert(self@ =~= on_event(old(self)@, at, *kind));
            },
            EventKind::PointCaptured { team, cp, name, cappers } => {
                let ghost before = self.out.caps@;
                let cap = Cap { at, round: self.round, team: *team, cp: *cp, name: name.clone(), cappers: cappers.clone() };
                assert(cap.cappers@ =~= cappers@);
                self.out.caps.push(cap);
                assert(self.out.caps@.map_values(|c: Cap| c@) =~= before.map_values(|c: Cap| c@).push(cap@));
                assert(self@ =~= on_event(old(self)@, at, *kind));
            },
            EventKind::CaptureBlocked => {},
            EventKind::Built { by, object } => {
                if is_sentry(object.as_str()) {
                    self.raise_sentry(*by, at);
                }
            },
            EventKind::ObjectKilled { by, owner, object } => {
                if let Some(o) = owner {
                    if is_sentry(object.as_str()) {
                        self.end_sentry(*o, at, SentryEnd::Destroyed { by: by.account });
                    }
                }
            },
            EventKind::Detonated { by, object } => {
                if is_sentry(object.as_str()) {
                    self.end_sentry(by.account, at, SentryEnd::Detonated);
                }
            },
            EventKind::Carried { by, object, picked } => {
                if is_sentry(object.as_str()) {
                    if *picked {
                        self.end_sentry(by.account, at, SentryEnd::Carried);
                    } else {
                        self.raise_sentry(*by, at);
                    }
                }
            },
        }
    }

    fn kill(&mut self, k: &Kill)
        requires
            sound(old(self)@),
            time_ok(k.at as int),
        ensures
            final(self)@ == on_kill(old(self)@, *k),
            sound(final(self)@),
    {
        self.tick(k.at);
        let feign = match &k.custom {
            Some(c) => {
                let cs = chars_of(c.as_str());
                let f = chars_of("feign_death");
                same(cs.as_slice(), f.as_slice())
            },
            None => false,
        };
        if !feign {
            self.end_life(k.victim.account, k.at, LifeEnd::Killed { by: k.killer.account });
        }
    }
}


// ---------------------------------------------------------------------------
// Lines, parts and repeats
// ---------------------------------------------------------------------------

/// Every line names a kill or an event that exists.
pub open spec fn lines_ok(lines: Seq<Line>, nk: int, ne: int) -> bool {
    forall|x: int|
        0 <= x < lines.len() ==> match #[trigger] lines[x] {
            Line::Kill(i) => i < nk,
            Line::Event(j) => j < ne,
        }
}

fn lines_in(nk: usize, events: &[Event]) -> (r: Vec<Line>)
    ensures
        r@ == lines_of(nk as int, events@),
        r@.len() == nk + events@.len(),
        lines_ok(r@, nk as int, events@.len() as int),
{
    let mut out: Vec<Line> = Vec::new();
    let mut c: usize = 0;
    let mut m: usize = 0;
    while m < events.len()
        invariant
            m <= events@.len(),
            c <= nk,
            c == emitted(nk as int, events@, m as int),
            out@ == lines_upto(nk as int, events@, m as int),
            out@.len() == c + m,
            lines_ok(out@, nk as int, events@.len() as int),
        decreases events@.len() - m,
    {
        let upto = if events[m].after_kills < nk {
            events[m].after_kills
        } else {
            nk
        };
        let ghost before = out@;
        let ghost c0 = c as int;
        while c < upto
            invariant
                c0 <= c <= nk,
                upto <= nk,
                c == c0 || c <= upto,
                upto == (if (events@[m as int].after_kills as int) < nk { events@[m as int].after_kills as int } else { nk as int }),
                c0 == emitted(nk as int, events@, m as int),
                out@ == before + kill_lines(c0, c as int),
                out@.len() == c + m,
                lines_ok(out@, nk as int, events@.len() as int),
            decreases upto - c,
        {
            out.push(Line::Kill(c));
            c += 1;
            assert(kill_lines(c0, c as int) =~= kill_lines(c0, c - 1).push(Line::Kill((c - 1) as usize)));
        }
        assert(c == emitted(nk as int, events@, m + 1));
        out.push(Line::Event(m));
        m += 1;
        assert(out@ =~= lines_upto(nk as int, events@, m as int));
    }
    let ghost before = out@;
    let ghost c0 = c as int;
    while c < nk
        invariant
            c0 <= c <= nk,
            c0 == emitted(nk as int, events@, events@.len() as int),
            out@ == before + kill_lines(c0, c as int),
            out@.len() == c + events@.len(),
            lines_ok(out@, nk as int, events@.len() as int),
        decreases nk - c,
    {
        out.push(Line::Kill(c));
        c += 1;
        assert(kill_lines(c0, c as int) =~= kill_lines(c0, c - 1).push(Line::Kill((c - 1) as usize)));
    }
    out
}

/// Every time lies in the range the rebuild works in.
pub open spec fn times_fit(ts: Seq<i64>) -> bool {
    forall|i: int| 0 <= i < ts.len() ==> time_ok(#[trigger] ts[i] as int)
}

fn times_in(lines: &[Line], kills: &[Kill], events: &[Event]) -> (r: Vec<i64>)
    requires
        lines_ok(lines@, kills@.len() as int, events@.len() as int),
    ensures
        r@ == times_of(lines@, kills@, events@),
{
    let mut out: Vec<i64> = Vec::new();
    let mut i: usize = 0;
    while i < lines.len()
        invariant
            i <= lines@.len(),
            lines_ok(lines@, kills@.len() as int, events@.len() as int),
            out@.len() == i,
            forall|x: int| 0 <= x < i ==> #[trigger] out@[x] == times_of(lines@, kills@, events@)[x],
        decreases lines@.len() - i,
    {
        let t = match lines[i] {
            Line::Kill(k) => kills[k].at,
            Line::Event(j) => events[j].at,
        };
        out.push(t);
        i += 1;
    }
    assert(out@ =~= times_of(lines@, kills@, events@));
    out
}

fn parts_in(ts: &[i64]) -> (r: Vec<usize>)
    requires
        times_fit(ts@),
    ensures
        r@.len() == ts@.len(),
        forall|i: int| 0 <= i < ts@.len() ==> #[trigger] r@[i] as int == part_of(ts@, i),
        forall|i: int| 0 <= i < ts@.len() ==> #[trigger] r@[i] <= i,
{
    let mut out: Vec<usize> = Vec::new();
    let mut part: usize = 0;
    let mut last: i64 = i64::MIN;
    let mut i: usize = 0;
    while i < ts.len()
        invariant
            i <= ts@.len(),
            times_fit(ts@),
            (part as int, last as int) == part_scan(ts@, i as int),
            i > 0 ==> part < i,
            i == 0 ==> part == 0 && last == i64::MIN,
            out@.len() == i,
            forall|x: int| 0 <= x < i ==> #[trigger] out@[x] as int == part_of(ts@, x),
            forall|x: int| 0 <= x < i ==> #[trigger] out@[x] <= x,
        decreases ts@.len() - i,
    {
        let at = ts[i];
        assert(time_ok(ts@[i as int] as int));
        if (at as i128) + (PART_JUMP_S as i128) < last as i128 {
            part += 1;
        }
        if at > last {
            last = at;
        }
        if part > 0 && (at as i128) + (PART_JUMP_S as i128) < last as i128 {
            last = at;
        }
        out.push(part);
        i += 1;
    }
    out
}


fn starts_round_in(l: Line, events: &[Event]) -> (b: bool)
    requires
        match l {
            Line::Event(j) => j < events@.len(),
            Line::Kill(_) => true,
        },
    ensures
        b == starts_round(l, events@),
{
    match l {
        Line::Event(j) => match &events[j].kind {
            EventKind::RoundStart => true,
            _ => false,
        },
        Line::Kill(_) => false,
    }
}

/// The lines and their times and parts, as `build` lays them out.
pub open spec fn laid_out(
    lines: Seq<Line>,
    ts: Seq<i64>,
    parts: Seq<usize>,
    nk: int,
    events: Seq<Event>,
) -> bool {
    &&& lines_ok(lines, nk, events.len() as int)
    &&& ts.len() == lines.len()
    &&& parts.len() == lines.len()
    &&& forall|i: int| 0 <= i < lines.len() ==> #[trigger] parts[i] as int == part_of(ts, i)
}

fn has_earlier_start(lines: &[Line], ts: &[i64], parts: &[usize], nk: Ghost<int>, events: &[Event], p: usize, t: i64) -> (b: bool)
    requires
        laid_out(lines@, ts@, parts@, nk@, events@),
    ensures
        b == exists|x: int|
            0 <= x < lines@.len() && part_of(ts@, x) < p && #[trigger] starts_round(lines@[x], events@) && ts@[x]
                == t,
{
    let mut x: usize = 0;
    while x < lines.len()
        invariant
            x <= lines@.len(),
            laid_out(lines@, ts@, parts@, nk@, events@),
            forall|y: int|
                0 <= y < x ==> !(part_of(ts@, y) < p && #[trigger] starts_round(lines@[y], events@) && ts@[y] == t),
        decreases lines@.len() - x,
    {
        assert(parts@[x as int] as int == part_of(ts@, x as int));
        assert(match lines@[x as int] {
            Line::Kill(i) => i < nk@,
            Line::Event(j) => j < events@.len(),
        });
        if parts[x] < p && starts_round_in(lines[x], events) && ts[x] == t {
            assert(starts_round(lines@[x as int], events@));
            return true;
        }
        x += 1;
    }
    false
}

fn part_repeats(lines: &[Line], ts: &[i64], parts: &[usize], nk: Ghost<int>, events: &[Event], p: usize) -> (b: bool)
    requires
        laid_out(lines@, ts@, parts@, nk@, events@),
    ensures
        b == is_repeat(lines@, ts@, events@, p as int),
{
    if p < 1 {
        return false;
    }
    let mut any = false;
    let mut all = true;
    let mut i: usize = 0;
    while i < lines.len()
        invariant
            i <= lines@.len(),
            p >= 1,
            laid_out(lines@, ts@, parts@, nk@, events@),
            any == exists|y: int| 0 <= y < i && part_of(ts@, y) == p && #[trigger] starts_round(lines@[y], events@),
            all == forall|y: int|
                0 <= y < i && part_of(ts@, y) == p && #[trigger] starts_round(lines@[y], events@) ==> exists|
                    x: int,
                |
                    0 <= x < lines@.len() && part_of(ts@, x) < p && #[trigger] starts_round(lines@[x], events@)
                        && ts@[x] == ts@[y],
        decreases lines@.len() - i,
    {
        assert(parts@[i as int] as int == part_of(ts@, i as int));
        assert(match lines@[i as int] {
            Line::Kill(k) => k < nk@,
            Line::Event(j) => j < events@.len(),
        });
        if parts[i] == p && starts_round_in(lines[i], events) {
            assert(starts_round(lines@[i as int], events@));
            any = true;
            if !has_earlier_start(lines, ts, parts, nk, events, p, ts[i]) {
                all = false;
            }
        }
        i += 1;
    }
    any && all
}

/// For each line, whether its part repeats an earlier one.
fn repeats_in(lines: &[Line], ts: &[i64], parts: &[usize], nk: Ghost<int>, events: &[Event]) -> (r: Vec<bool>)
    requires
        laid_out(lines@, ts@, parts@, nk@, events@),
    ensures
        r@.len() == lines@.len(),
        forall|i: int| 0 <= i < lines@.len() ==> #[trigger] r@[i] == is_repeat(lines@, ts@, events@, part_of(ts@, i)),
{
    let mut out: Vec<bool> = Vec::new();
    let mut i: usize = 0;
    while i < lines.len()
        invariant
            i <= lines@.len(),
            laid_out(lines@, ts@, parts@, nk@, events@),
            out@.len() == i,
            forall|x: int| 0 <= x < i ==> #[trigger] out@[x] == is_repeat(lines@, ts@, events@, part_of(ts@, x)),
        decreases lines@.len() - i,
    {
        assert(parts@[i as int] as int == part_of(ts@, i as int));
        let flag = if i > 0 && parts[i] == parts[i - 1] {
            assert(parts@[i - 1] as int == part_of(ts@, i - 1));
            out[i - 1]
        } else {
            part_repeats(lines, ts, parts, nk, events, parts[i])
        };
        out.push(flag);
        i += 1;
    }
    out
}


proof fn lemma_round_step(b: Build, l: Line, kills: Seq<Kill>, events: Seq<Event>)
    ensures
        on_line(b, l, kills, events).round <= b.round + 1,
        on_line(b, l, kills, events).round >= b.round,
{
}

impl Builder {
    /// Close whatever is still open just after the last line, and drop what
    /// never lasted.
    fn finish(self) -> (r: GameState)
        requires
            sound(self@),
        ensures
            r@ == finish(self@),
            numbered(r.rounds@),
    {
        let mut b = self;
        let ghost b0 = b@;
        let end = b.last + 1;
        b.close_all(end);
        let ghost c = b@;
        assert(c == close_all(b0, (b0.last + 1) as i64));
        let GameState { lives: all_lives, charges: all_charges, rounds, caps, sentries: all_sentries, lost_advantages } = b.out;
        let mut lives: Vec<Life> = Vec::new();
        let mut i: usize = 0;
        while i < all_lives.len()
            invariant
                i <= all_lives@.len(),
                lives@ == kept_lives(all_lives@, i as int),
            decreases all_lives@.len() - i,
        {
            let l = all_lives[i];
            if l.to > l.from || !(l.end == LifeEnd::Respawned || l.end == LifeEnd::NewRound) {
                lives.push(l);
            }
            i += 1;
        }
        let mut sentries: Vec<Sentry> = Vec::new();
        let mut i: usize = 0;
        while i < all_sentries.len()
            invariant
                i <= all_sentries@.len(),
                sentries@ == kept_sentries(all_sentries@, i as int),
            decreases all_sentries@.len() - i,
        {
            let x = all_sentries[i];
            if x.to > x.from {
                sentries.push(x);
            }
            i += 1;
        }
        let ghost src = all_charges@;
        let total = all_charges.len();
        let mut rest = all_charges;
        let mut charges: Vec<ChargeSpan> = Vec::new();
        let mut n: usize = 0;
        while rest.len() > 0
            invariant
                n + rest@.len() == src.len(),
                src.len() == total,
                rest@ == src.skip(n as int),
                charges@ == kept_charges(src, n as int),
            decreases rest@.len(),
        {
            let ghost before = rest@;
            let c = rest.remove(0);
            assert(c == src[n as int]);
            assert(rest@ =~= src.skip(n + 1));
            // A Vaccinator pops several times a second; those charges are real.
            if c.to > c.from || c.kind == ChargeKind::Deployed {
                charges.push(c);
            }
            n += 1;
        }
        let r = GameState { lives, charges, rounds, caps, sentries, lost_advantages };
        assert(r@ =~= finish(b0));
        r
    }
}

impl GameState {
    /// The game state at every moment of a match, rebuilt from its raw log:
    /// its kills, and the events read from the same file. Lines of the same
    /// second are taken in file order; a part of a combined log that repeats
    /// an earlier one is replayed once.
    pub fn build(raw: &RawLog, events: &[Event]) -> (r: GameState)
        requires
            raw.kills@.len() + events@.len() < u32::MAX,
            forall|i: int| 0 <= i < raw.kills@.len() ==> time_ok(#[trigger] raw.kills@[i].at as int),
            forall|j: int| 0 <= j < events@.len() ==> time_ok(#[trigger] events@[j].at as int),
        ensures
            r@ == build_spec(raw.kills@, events@),
            numbered(r.rounds@),
    {
        let kills = raw.kills.as_slice();
        let ghost nk = kills@.len() as int;
        let lines = lines_in(kills.len(), events);
        let ts = times_in(lines.as_slice(), kills, events);
        assert(times_fit(ts@)) by {
            assert forall|i: int| 0 <= i < ts@.len() implies time_ok(#[trigger] ts@[i] as int) by {
                assert(ts@[i] == times_of(lines@, kills@, events@)[i]);
                match lines@[i] {
                    Line::Kill(k) => assert(time_ok(kills@[k as int].at as int)),
                    Line::Event(j) => assert(time_ok(events@[j as int].at as int)),
                }
            }
        }
        let parts = parts_in(ts.as_slice());
        let skip = repeats_in(lines.as_slice(), ts.as_slice(), parts.as_slice(), Ghost(nk), events);
        let mut b = Builder::new();
        let mut i: usize = 0;
        while i < lines.len()
            invariant
                i <= lines@.len(),
                lines@.len() == nk + events@.len(),
                nk == kills@.len(),
                kills@ == raw.kills@,
                lines@ == lines_of(nk, events@),
                ts@ == times_of(lines@, kills@, events@),
                lines_ok(lines@, nk, events@.len() as int),
                times_fit(ts@),
                skip@.len() == lines@.len(),
                forall|x: int| 0 <= x < lines@.len() ==> #[trigger] skip@[x] == is_repeat(lines@, ts@, events@, part_of(ts@, x)),
                forall|j: int| 0 <= j < events@.len() ==> time_ok(#[trigger] events@[j].at as int),
                b@ == replay(kills@, events@, lines@, ts@, i as int),
                sound(b@),
                b@.round <= i,
                nk + events@.len() < u32::MAX,
            decreases lines@.len() - i,
        {
            proof {
                lemma_round_step(b@, lines@[i as int], kills@, events@);
            }
            if !skip[i] {
                assert(match lines@[i as int] {
                    Line::Kill(k) => k < nk,
                    Line::Event(j) => j < events@.len(),
                });
                assert(time_ok(ts@[i as int] as int));
                assert(ts@[i as int] == line_time(lines@[i as int], kills@, events@));
                match lines[i] {
                    Line::Kill(k) => b.kill(&kills[k]),
                    Line::Event(j) => {
                        b.tick(events[j].at);
                        b.event(events[j].at, &events[j].kind);
                    },
                }
            }
            i += 1;
        }
        b.finish()
    }
}

} // verus!
