//! Kills in context: which kill opened a fight, which was traded straight
//! back, which only cleaned up, and how kills and deaths sit around the
//! ubers.
use crate::matchdata::Team;
use crate::rawlog::{kill_counts, Damage, Kill, KillV, RawLog};
use crate::state::{alive, best_charge, count_alive, Charge, ChargeKind, ChargeSpan, GameState, Life, Round};
use crate::tfclass::TfClass;
use vstd::prelude::*;

verus! {

/// A kill more than this after the previous one starts a new fight.
pub const FIGHT_GAP_S: i64 = 10;
/// A loss within this long after a kill trades it back.
pub const TRADE_S: i64 = 3;
/// "Before" and "after" a team's uber: this long either side of it.
pub const UBER_WINDOW_S: i64 = 10;
/// A pop is forced when the Medic took this much damage in the seconds before it...
pub const FORCE_DAMAGE: i64 = 90;
pub const FORCE_WINDOW_S: i64 = 3;
/// ...and a player is credited when they dealt at least this much of it.
pub const FORCE_SHARE: i64 = 40;

pub open spec fn combo_spec(c: TfClass) -> bool {
    c == TfClass::Medic || c == TfClass::Demoman || c == TfClass::Heavy || c == TfClass::Pyro
}

/// The classes that take and hold space together.
pub fn is_combo(c: TfClass) -> (b: bool)
    ensures
        b == combo_spec(c),
{
    match c {
        TfClass::Medic | TfClass::Demoman | TfClass::Heavy | TfClass::Pyro => true,
        _ => false,
    }
}

/// What one kill meant. Not exclusive: an opening pick can also be traded.
#[derive(Debug, Clone, Copy, Default, PartialEq, Eq)]
pub struct KillTags {
    /// The first kill of a fight.
    pub opening: bool,
    /// The first kill of the round.
    pub first_of_round: bool,
    /// The killer's team lost someone within [`TRADE_S`].
    pub traded: bool,
    /// The killer themselves died within [`TRADE_S`].
    pub died_after: bool,
    /// Avenged a teammate who died within [`TRADE_S`] before.
    pub trade: bool,
    /// The killer's team already had more players alive.
    pub cleanup: bool,
    /// The victim was on the combo while their team held a ready charge.
    pub into_charge: bool,
    /// The victim was a Medic holding a ready charge.
    pub drop: bool,
}

/// One player's counts for one match.
#[derive(Debug, Clone, Default, PartialEq, Eq)]
pub struct FightStats {
    pub account_id: u32,
    /// Rounds the player was alive in at some point.
    pub rounds: u32,
    pub kills: u32,
    pub deaths: u32,
    pub opening_kills: u32,
    pub opening_deaths: u32,
    pub first_picks: u32,
    pub first_deaths: u32,
    pub traded_kills: u32,
    pub died_after_kill: u32,
    pub trade_kills: u32,
    pub cleanup_kills: u32,
    pub charged_picks: u32,
    pub drops: u32,
    /// Enemy ubers popped under this player's damage on the Medic.
    pub forces: u32,
    /// Deaths in the [`UBER_WINDOW_S`] before the player's team popped,
    /// while it was in use, and in the window after it ended.
    pub deaths_before_uber: u32,
    pub deaths_during_uber: u32,
    pub deaths_after_uber: u32,
}

/// The first kill of each round, for the match page.
#[derive(Debug, Clone, PartialEq, Eq)]
pub struct FirstPick {
    /// The round's number in the raw log's order.
    pub round: u32,
    /// Seconds from the round going live.
    pub after_s: i64,
    pub killer: u32,
    pub victim: u32,
}

#[derive(Debug, Clone, Default)]
pub struct Fights {
    /// Aligned with the raw log's kills; `None` for kills that are not counted.
    pub tags: Vec<Option<KillTags>>,
    pub players: Vec<FightStats>,
    pub first_picks: Vec<FirstPick>,
}

/// How a pass over the stored raw logs went.
#[derive(Debug, Clone, Copy, Default, PartialEq, Eq)]
pub struct DeriveSummary {
    pub derived: usize,
    pub total: usize,
}

// ---------------------------------------------------------------------------
// The kills that count
// ---------------------------------------------------------------------------

/// A kill between two players of opposite colours that logs.tf counts.
pub open spec fn eligible(k: KillV) -> bool {
    &&& kill_counts(k)
    &&& k.killer.account != k.victim.account
    &&& k.killer.team is Some
    &&& k.victim.team is Some
    &&& k.killer.team != k.victim.team
}

/// Two lines for one kill: the same second, pair and weapon.
pub open spec fn same_kill(a: KillV, b: KillV) -> bool {
    a.at == b.at && a.killer.account == b.killer.account && a.victim.account == b.victim.account
        && a.weapon == b.weapon
}

/// Kill `i` counts: eligible, and no earlier eligible line is the same kill.
pub open spec fn counted(ks: Seq<KillV>, i: int) -> bool {
    &&& eligible(ks[i])
    &&& forall|j: int| 0 <= j < i && #[trigger] eligible(ks[j]) ==> !same_kill(ks[j], ks[i])
}

/// The kills that count among the first `n`, by index, in order.
pub open spec fn counted_upto(ks: Seq<KillV>, n: int) -> Seq<int>
    decreases n,
{
    if n <= 0 {
        Seq::empty()
    } else {
        let prev = counted_upto(ks, n - 1);
        if counted(ks, n - 1) {
            prev.push(n - 1)
        } else {
            prev
        }
    }
}

pub open spec fn kills_of(raw: &RawLog) -> Seq<KillV> {
    raw.kills@.map_values(|k: Kill| k@)
}

fn is_eligible(k: &Kill) -> (b: bool)
    ensures
        b == eligible(k@),
{
    k.counts() && k.killer.account != k.victim.account && k.killer.team.is_some() && k.victim.team.is_some()
        && !same_team(k.killer.team, k.victim.team)
}

fn same_team(a: Option<Team>, b: Option<Team>) -> (r: bool)
    ensures
        r == (a == b),
{
    match (a, b) {
        (Some(x), Some(y)) => x == y,
        (None, None) => true,
        _ => false,
    }
}

fn is_same_kill(a: &Kill, b: &Kill) -> (r: bool)
    ensures
        r == same_kill(a@, b@),
{
    if a.at != b.at || a.killer.account != b.killer.account || a.victim.account != b.victim.account {
        return false;
    }
    let x = crate::text::chars_of(a.weapon.as_str());
    let y = crate::text::chars_of(b.weapon.as_str());
    crate::text::same(x.as_slice(), y.as_slice())
}

proof fn lemma_counted_upto_bounds(ks: Seq<KillV>, n: int)
    requires
        0 <= n <= ks.len(),
    ensures
        counted_upto(ks, n).len() <= n,
        forall|p: int|
            0 <= p < counted_upto(ks, n).len() ==> 0 <= #[trigger] counted_upto(ks, n)[p] < n
                && counted(ks, counted_upto(ks, n)[p]),
        forall|p: int, q: int|
            0 <= p < q < counted_upto(ks, n).len() ==> #[trigger] counted_upto(ks, n)[p]
                < #[trigger] counted_upto(ks, n)[q],
        forall|i: int| 0 <= i < n && #[trigger] counted(ks, i) ==> counted_upto(ks, n).contains(i),
    decreases n,
{
    if n > 0 {
        lemma_counted_upto_bounds(ks, n - 1);
        let prev = counted_upto(ks, n - 1);
        if counted(ks, n - 1) {
            assert(counted_upto(ks, n) == prev.push(n - 1));
            assert forall|i: int| 0 <= i < n && #[trigger] counted(ks, i) implies counted_upto(
                ks,
                n,
            ).contains(i) by {
                if i < n - 1 {
                    let w = choose|w: int| 0 <= w < prev.len() && prev[w] == i;
                    assert(counted_upto(ks, n)[w] == i);
                } else {
                    assert(counted_upto(ks, n)[prev.len() as int] == i);
                }
            }
        }
    }
}

/// Whether an earlier eligible line is the same kill as line `i`.
fn repeats(kills: &Vec<Kill>, i: usize) -> (r: bool)
    requires
        i < kills@.len(),
    ensures
        r == exists|j: int|
            0 <= j < i && #[trigger] eligible(kills@[j]@) && same_kill(kills@[j]@, kills@[i as int]@),
{
    let mut j: usize = 0;
    while j < i
        invariant
            j <= i < kills@.len(),
            forall|q: int| 0 <= q < j && #[trigger] eligible(kills@[q]@) ==> !same_kill(kills@[q]@, kills@[i as int]@),
        decreases i - j,
    {
        if is_eligible(&kills[j]) && is_same_kill(&kills[j], &kills[i]) {
            return true;
        }
        j += 1;
    }
    false
}

/// The indices of the kills that count, in order.
fn counted_kills(kills: &Vec<Kill>) -> (idx: Vec<usize>)
    requires
        kills@.len() <= usize::MAX,
    ensures
        idx@.len() == counted_upto(kills@.map_values(|k: Kill| k@), kills@.len() as int).len(),
        forall|p: int|
            0 <= p < idx@.len() ==> #[trigger] idx@[p] as int == counted_upto(
                kills@.map_values(|k: Kill| k@),
                kills@.len() as int,
            )[p],
{
    let ghost ks = kills@.map_values(|k: Kill| k@);
    let mut idx: Vec<usize> = Vec::new();
    let mut i: usize = 0;
    while i < kills.len()
        invariant
            i <= kills@.len(),
            ks == kills@.map_values(|k: Kill| k@),
            idx@.len() == counted_upto(ks, i as int).len(),
            forall|p: int| 0 <= p < idx@.len() ==> #[trigger] idx@[p] as int == counted_upto(ks, i as int)[p],
        decreases kills@.len() - i,
    {
        let ok = is_eligible(&kills[i]);
        let fresh = ok && !repeats(kills, i);
        assert(fresh == counted(ks, i as int)) by {
            assert(ks[i as int] == kills@[i as int]@);
            if !fresh && ok {
                let j = choose|j: int|
                    0 <= j < i && #[trigger] eligible(kills@[j]@) && same_kill(kills@[j]@, kills@[i as int]@);
                assert(ks[j] == kills@[j]@);
            }
            if fresh {
                assert forall|j: int| 0 <= j < i && #[trigger] eligible(ks[j]) implies !same_kill(ks[j], ks[i as int]) by {
                    assert(ks[j] == kills@[j]@);
                }
            }
        }
        if fresh {
            idx.push(i);
        }
        i += 1;
    }
    idx
}

// ---------------------------------------------------------------------------
// What each counted kill meant
// ---------------------------------------------------------------------------

pub open spec fn ix(idx: Seq<usize>) -> Seq<int> {
    idx.map_values(|u: usize| u as int)
}

/// The `p`-th counted kill.
pub open spec fn nth(ks: Seq<KillV>, is: Seq<int>, p: int) -> KillV {
    ks[is[p]]
}

/// The first counted kill of its round: kills group into runs of one round.
pub open spec fn starts_round(ks: Seq<KillV>, is: Seq<int>, p: int) -> bool {
    p == 0 || nth(ks, is, p - 1).round != nth(ks, is, p).round
}

/// The first kill of a fight: the first of its round, or more than
/// [`FIGHT_GAP_S`] after the one before.
pub open spec fn opens(ks: Seq<KillV>, is: Seq<int>, p: int) -> bool {
    starts_round(ks, is, p) || nth(ks, is, p).at - nth(ks, is, p - 1).at > FIGHT_GAP_S
}

/// Scanning on from the `q`-th counted kill, within kill `p`'s round and
/// until one more than [`TRADE_S`] after it: one of the killer's colour dies
/// (and, with `own`, it is the killer).
pub open spec fn lost_after(ks: Seq<KillV>, is: Seq<int>, p: int, q: int, own: bool) -> bool
    decreases is.len() - q,
{
    if q < 0 || q >= is.len() || nth(ks, is, q).round != nth(ks, is, p).round || nth(ks, is, q).at
        - nth(ks, is, p).at > TRADE_S {
        false
    } else {
        (nth(ks, is, q).victim.team == nth(ks, is, p).killer.team && (!own || nth(ks, is, q).victim.account
            == nth(ks, is, p).killer.account)) || lost_after(ks, is, p, q + 1, own)
    }
}

/// Scanning back from the `q`-th counted kill, within kill `p`'s round and
/// until one more than [`TRADE_S`] before it: one of the killer's colour died.
pub open spec fn lost_before(ks: Seq<KillV>, is: Seq<int>, p: int, q: int) -> bool
    decreases q + 1,
{
    if q < 0 || q >= is.len() || nth(ks, is, q).round != nth(ks, is, p).round || nth(ks, is, p).at
        - nth(ks, is, q).at > TRADE_S {
        false
    } else {
        nth(ks, is, q).victim.team == nth(ks, is, p).killer.team || lost_before(ks, is, p, q - 1)
    }
}

pub open spec fn alive_n(gs: GameState, team: Team, t: int) -> nat {
    count_alive(gs.lives@, team, t, gs.lives@.len() as int)
}

/// What the `p`-th counted kill meant. `charged` says, per kill of the raw
/// log, whether the victim's colour held a ready charge just before it.
pub open spec fn tag_spec(ks: Seq<KillV>, is: Seq<int>, gs: GameState, charged: Seq<bool>, p: int) -> KillTags {
    let k = nth(ks, is, p);
    let before = k.at - 1;
    let held = charged[is[p]];
    KillTags {
        opening: opens(ks, is, p),
        first_of_round: starts_round(ks, is, p),
        traded: lost_after(ks, is, p, p + 1, false),
        died_after: lost_after(ks, is, p, p + 1, true),
        trade: lost_before(ks, is, p, p - 1),
        cleanup: alive_n(gs, k.killer.team.unwrap(), before) > alive_n(gs, k.victim.team.unwrap(), before),
        into_charge: held && (k.victim.class matches Some(c) && combo_spec(c)),
        drop: held && k.victim.class == Some(TfClass::Medic),
    }
}

/// Players of a colour alive at `t`.
fn alive_count(gs: &GameState, team: Team, t: i64) -> (r: usize)
    ensures
        r == alive_n(*gs, team, t as int),
{
    let mut n: usize = 0;
    let mut i: usize = 0;
    while i < gs.lives.len()
        invariant
            i <= gs.lives@.len(),
            n == count_alive(gs.lives@, team, t as int, i as int),
            n <= i,
        decreases gs.lives@.len() - i,
    {
        let l = gs.lives[i];
        if l.team == team && l.from <= t && t < l.to {
            n += 1;
        }
        i += 1;
    }
    n
}

/// The counted kills' indices are in range and rising.
pub open spec fn well_indexed(ks: Seq<KillV>, is: Seq<int>) -> bool {
    &&& forall|p: int| 0 <= p < is.len() ==> 0 <= #[trigger] is[p] < ks.len()
    &&& forall|p: int| 0 <= p < is.len() ==> eligible(#[trigger] ks[is[p]])
}

/// `lost_after` from `p + 1`: whether a teammate (and whether the killer)
/// died within [`TRADE_S`] after counted kill `p`.
fn losses_after(kills: &Vec<Kill>, idx: &Vec<usize>, p: usize) -> (r: (bool, bool))
    requires
        p < idx@.len(),
        well_indexed(kills@.map_values(|k: Kill| k@), ix(idx@)),
    ensures
        r.0 == lost_after(kills@.map_values(|k: Kill| k@), ix(idx@), p as int, p + 1, false),
        r.1 == lost_after(kills@.map_values(|k: Kill| k@), ix(idx@), p as int, p + 1, true),
{
    let ghost ks = kills@.map_values(|k: Kill| k@);
    let ghost is = ix(idx@);
    assert(ks[is[p as int]] == kills@[idx@[p as int] as int]@);
    let k = &kills[idx[p]];
    let mut traded = false;
    let mut died = false;
    assert(idx@.len() == idx.len());
    let mut q: usize = p + 1;
    while q < idx.len()
        invariant
            p < q <= idx@.len(),
            ks == kills@.map_values(|k: Kill| k@),
            is == ix(idx@),
            well_indexed(ks, is),
            *k == kills@[idx@[p as int] as int],
            lost_after(ks, is, p as int, p + 1, false) == (traded || lost_after(ks, is, p as int, q as int, false)),
            lost_after(ks, is, p as int, p + 1, true) == (died || lost_after(ks, is, p as int, q as int, true)),
        decreases idx@.len() - q,
    {
        assert(ks[is[q as int]] == kills@[idx@[q as int] as int]@);
        assert(ks[is[p as int]] == kills@[idx@[p as int] as int]@);
        let n = &kills[idx[q]];
        if n.round != k.round || (n.at as i128) - (k.at as i128) > TRADE_S as i128 {
            return (traded, died);
        }
        if same_team(n.victim.team, k.killer.team) {
            traded = true;
            if n.victim.account == k.killer.account {
                died = true;
            }
        }
        q += 1;
    }
    (traded, died)
}

/// `lost_before` from `p - 1`: whether this kill avenged a teammate who died
/// within [`TRADE_S`] before it.
fn avenges(kills: &Vec<Kill>, idx: &Vec<usize>, p: usize) -> (r: bool)
    requires
        p < idx@.len(),
        well_indexed(kills@.map_values(|k: Kill| k@), ix(idx@)),
    ensures
        r == lost_before(kills@.map_values(|k: Kill| k@), ix(idx@), p as int, p - 1),
{
    let ghost ks = kills@.map_values(|k: Kill| k@);
    let ghost is = ix(idx@);
    assert(ks[is[p as int]] == kills@[idx@[p as int] as int]@);
    let k = &kills[idx[p]];
    let mut q: usize = p;
    while q > 0
        invariant
            q <= p < idx@.len(),
            ks == kills@.map_values(|k: Kill| k@),
            is == ix(idx@),
            well_indexed(ks, is),
            *k == kills@[idx@[p as int] as int],
            lost_before(ks, is, p as int, p - 1) == lost_before(ks, is, p as int, q - 1),
        decreases q,
    {
        assert(ks[is[q - 1]] == kills@[idx@[q - 1] as int]@);
        assert(ks[is[p as int]] == kills@[idx@[p as int] as int]@);
        let prev = &kills[idx[q - 1]];
        if prev.round != k.round || (k.at as i128) - (prev.at as i128) > TRADE_S as i128 {
            return false;
        }
        if same_team(prev.victim.team, k.killer.team) {
            return true;
        }
        q -= 1;
    }
    false
}

/// Counted kills are never at the first second `i64` can hold, so the
/// moment just before each is a time too.
pub open spec fn times_ok(ks: Seq<KillV>) -> bool {
    forall|i: int| 0 <= i < ks.len() && #[trigger] eligible(ks[i]) ==> ks[i].at > i64::MIN
}

fn class_is(c: Option<TfClass>, want: TfClass) -> (r: bool)
    ensures
        r == (c == Some(want)),
{
    match c {
        Some(x) => x == want,
        None => false,
    }
}

/// Each counted kill's tags, in order of the counted kills.
fn tag_all(kills: &Vec<Kill>, idx: &Vec<usize>, gs: &GameState, charged: &[bool]) -> (tags: Vec<KillTags>)
    requires
        well_indexed(kills@.map_values(|k: Kill| k@), ix(idx@)),
        times_ok(kills@.map_values(|k: Kill| k@)),
        charged@.len() == kills@.len(),
    ensures
        tags@.len() == idx@.len(),
        forall|p: int|
            0 <= p < idx@.len() ==> #[trigger] tags@[p] == tag_spec(
                kills@.map_values(|k: Kill| k@),
                ix(idx@),
                *gs,
                charged@,
                p,
            ),
{
    let ghost ks = kills@.map_values(|k: Kill| k@);
    let ghost is = ix(idx@);
    let mut tags: Vec<KillTags> = Vec::new();
    let mut p: usize = 0;
    while p < idx.len()
        invariant
            p <= idx@.len(),
            ks == kills@.map_values(|k: Kill| k@),
            is == ix(idx@),
            well_indexed(ks, is),
            times_ok(ks),
            charged@.len() == kills@.len(),
            tags@.len() == p,
            forall|q: int| 0 <= q < p ==> #[trigger] tags@[q] == tag_spec(ks, is, *gs, charged@, q),
        decreases idx@.len() - p,
    {
        assert(ks[is[p as int]] == kills@[idx@[p as int] as int]@);
        let k = &kills[idx[p]];
        let first = if p == 0 {
            true
        } else {
            assert(ks[is[p - 1]] == kills@[idx@[p - 1] as int]@);
            kills[idx[p - 1]].round != k.round
        };
        let opening = first || (k.at as i128) - (kills[idx[p - 1]].at as i128) > FIGHT_GAP_S as i128;
        let (traded, died_after) = losses_after(kills, idx, p);
        let trade = avenges(kills, idx, p);
        let kt = k.killer.team.unwrap();
        let vt = k.victim.team.unwrap();
        let ours = alive_count(gs, kt, k.at - 1);
        let theirs = alive_count(gs, vt, k.at - 1);
        let held = charged[idx[p]];
        let into_charge = held && match k.victim.class {
            Some(c) => is_combo(c),
            None => false,
        };
        let drop = held && class_is(k.victim.class, TfClass::Medic);
        tags.push(
            KillTags {
                opening,
                first_of_round: first,
                traded,
                died_after,
                trade,
                cleanup: ours > theirs,
                into_charge,
                drop,
            },
        );
        assert(tags@[p as int] == tag_spec(ks, is, *gs, charged@, p as int));
        p += 1;
    }
    tags
}

// ---------------------------------------------------------------------------
// Deaths around a colour's own ubers
// ---------------------------------------------------------------------------

/// Where a death falls against its colour's own ubers.
#[derive(Debug, Clone, Copy, PartialEq, Eq, Structural)]
pub enum UberPhase {
    Before,
    During,
    After,
}

/// A charge that counts as a colour's uber: deployed, and not a
/// Vaccinator's, whose many small pops are not ubers.
pub open spec fn is_uber(c: ChargeSpan, team: Team) -> bool {
    &&& c.team == team
    &&& c.kind == ChargeKind::Deployed
    &&& !(c.medigun matches Some(m) && m@ == "vaccinator"@)
}

/// Uber `c` holds `t` (`w` 0), starts within [`UBER_WINDOW_S`] after it
/// (`w` 1), or ended within [`UBER_WINDOW_S`] before it (`w` 2).
pub open spec fn uber_near(c: ChargeSpan, team: Team, t: int, w: int) -> bool {
    is_uber(c, team) && if w == 0 {
        c.from <= t <= c.to
    } else if w == 1 {
        c.from > t && c.from - t <= UBER_WINDOW_S
    } else {
        c.to < t && t - c.to <= UBER_WINDOW_S
    }
}

pub open spec fn any_near(gs: GameState, team: Team, t: int, w: int) -> bool {
    exists|i: int| 0 <= i < gs.charges@.len() && #[trigger] uber_near(gs.charges@[i], team, t, w)
}

/// During one of the colour's ubers, else just before one, else just after
/// one.
pub open spec fn phase_spec(gs: GameState, team: Team, t: int) -> Option<UberPhase> {
    if any_near(gs, team, t, 0) {
        Some(UberPhase::During)
    } else if any_near(gs, team, t, 1) {
        Some(UberPhase::Before)
    } else if any_near(gs, team, t, 2) {
        Some(UberPhase::After)
    } else {
        None
    }
}

fn is_uber_of(c: &ChargeSpan, team: Team) -> (r: bool)
    ensures
        r == is_uber(*c, team),
{
    let deployed = match c.kind {
        ChargeKind::Deployed => true,
        _ => false,
    };
    let vacc = match &c.medigun {
        Some(m) => {
            let mc = crate::text::chars_of(m.as_str());
            let v = crate::text::chars_of("vaccinator");
            crate::text::same(mc.as_slice(), v.as_slice())
        },
        None => false,
    };
    c.team == team && deployed && !vacc
}

fn near_any(gs: &GameState, team: Team, t: i64, w: u8) -> (r: bool)
    requires
        w <= 2,
    ensures
        r == any_near(*gs, team, t as int, w as int),
{
    let mut i: usize = 0;
    while i < gs.charges.len()
        invariant
            i <= gs.charges@.len(),
            w <= 2,
            forall|j: int| 0 <= j < i ==> !#[trigger] uber_near(gs.charges@[j], team, t as int, w as int),
        decreases gs.charges@.len() - i,
    {
        let c = &gs.charges[i];
        if is_uber_of(c, team) {
            let hit = if w == 0 {
                c.from <= t && t <= c.to
            } else if w == 1 {
                c.from > t && (c.from as i128) - (t as i128) <= UBER_WINDOW_S as i128
            } else {
                c.to < t && (t as i128) - (c.to as i128) <= UBER_WINDOW_S as i128
            };
            if hit {
                assert(uber_near(gs.charges@[i as int], team, t as int, w as int));
                return true;
            }
        }
        i += 1;
    }
    false
}

fn uber_phase(gs: &GameState, team: Team, t: i64) -> (r: Option<UberPhase>)
    ensures
        r == phase_spec(*gs, team, t as int),
{
    if near_any(gs, team, t, 0) {
        Some(UberPhase::During)
    } else if near_any(gs, team, t, 1) {
        Some(UberPhase::Before)
    } else if near_any(gs, team, t, 2) {
        Some(UberPhase::After)
    } else {
        None
    }
}

// ---------------------------------------------------------------------------
// Counting per player
// ---------------------------------------------------------------------------

/// What the counts read of one counted kill.
#[derive(Debug, Clone, Copy)]
pub struct KillRow {
    pub killer: u32,
    pub victim: u32,
    pub tags: KillTags,
    /// Where the death falls against the victim's colour's ubers.
    pub phase: Option<UberPhase>,
}

pub open spec fn row_spec(ks: Seq<KillV>, is: Seq<int>, gs: GameState, charged: Seq<bool>, p: int) -> KillRow {
    let k = nth(ks, is, p);
    KillRow {
        killer: k.killer.account,
        victim: k.victim.account,
        tags: tag_spec(ks, is, gs, charged, p),
        phase: phase_spec(gs, k.victim.team.unwrap(), k.at as int),
    }
}

/// Whether a kill adds one to counter `f` of player `a`, the counters in
/// [`FightStats`] order from `kills` to `deaths_after_uber`, `rounds` and
/// `forces` left out.
pub open spec fn adds(r: KillRow, a: u32, f: int) -> bool {
    let t = r.tags;
    if f == 0 {
        r.killer == a
    } else if f == 1 {
        r.victim == a
    } else if f == 2 {
        r.killer == a && t.opening
    } else if f == 3 {
        r.victim == a && t.opening
    } else if f == 4 {
        r.killer == a && t.first_of_round
    } else if f == 5 {
        r.victim == a && t.first_of_round
    } else if f == 6 {
        r.killer == a && t.traded
    } else if f == 7 {
        r.killer == a && t.died_after
    } else if f == 8 {
        r.killer == a && t.trade
    } else if f == 9 {
        r.killer == a && t.cleanup
    } else if f == 10 {
        r.killer == a && t.into_charge
    } else if f == 11 {
        r.killer == a && t.drop
    } else if f == 12 {
        r.victim == a && r.phase == Some(UberPhase::Before)
    } else if f == 13 {
        r.victim == a && r.phase == Some(UberPhase::During)
    } else if f == 14 {
        r.victim == a && r.phase == Some(UberPhase::After)
    } else {
        false
    }
}

pub open spec fn count_of(rows: Seq<KillRow>, a: u32, f: int, n: int) -> nat
    decreases n,
{
    if n <= 0 {
        0
    } else {
        count_of(rows, a, f, n - 1) + if adds(rows[n - 1], a, f) {
            1nat
        } else {
            0nat
        }
    }
}

fn adds_exec(r: &KillRow, a: u32, f: usize) -> (b: bool)
    ensures
        b == adds(*r, a, f as int),
{
    let t = r.tags;
    let before = match r.phase {
        Some(UberPhase::Before) => true,
        _ => false,
    };
    let during = match r.phase {
        Some(UberPhase::During) => true,
        _ => false,
    };
    let after = match r.phase {
        Some(UberPhase::After) => true,
        _ => false,
    };
    if f == 0 {
        r.killer == a
    } else if f == 1 {
        r.victim == a
    } else if f == 2 {
        r.killer == a && t.opening
    } else if f == 3 {
        r.victim == a && t.opening
    } else if f == 4 {
        r.killer == a && t.first_of_round
    } else if f == 5 {
        r.victim == a && t.first_of_round
    } else if f == 6 {
        r.killer == a && t.traded
    } else if f == 7 {
        r.killer == a && t.died_after
    } else if f == 8 {
        r.killer == a && t.trade
    } else if f == 9 {
        r.killer == a && t.cleanup
    } else if f == 10 {
        r.killer == a && t.into_charge
    } else if f == 11 {
        r.killer == a && t.drop
    } else if f == 12 {
        r.victim == a && before
    } else if f == 13 {
        r.victim == a && during
    } else if f == 14 {
        r.victim == a && after
    } else {
        false
    }
}

proof fn lemma_count_of_bound(rows: Seq<KillRow>, a: u32, f: int, n: int)
    requires
        0 <= n,
    ensures
        count_of(rows, a, f, n) <= n,
    decreases n,
{
    if n > 0 {
        lemma_count_of_bound(rows, a, f, n - 1);
    }
}

/// Player `a`'s fifteen kill counters over the rows.
fn counters(rows: &Vec<KillRow>, a: u32) -> (r: Vec<u32>)
    requires
        rows@.len() <= u32::MAX,
    ensures
        r@.len() == 15,
        forall|f: int| 0 <= f < 15 ==> #[trigger] r@[f] == count_of(rows@, a, f, rows@.len() as int),
{
    let mut r: Vec<u32> = Vec::new();
    let mut f: usize = 0;
    while f < 15
        invariant
            f <= 15,
            r@.len() == f,
            forall|g: int| 0 <= g < f ==> #[trigger] r@[g] == count_of(rows@, a, g, 0),
        decreases 15 - f,
    {
        r.push(0);
        f += 1;
    }
    let mut p: usize = 0;
    while p < rows.len()
        invariant
            p <= rows@.len() <= u32::MAX,
            r@.len() == 15,
            forall|g: int| 0 <= g < 15 ==> #[trigger] r@[g] == count_of(rows@, a, g, p as int),
        decreases rows@.len() - p,
    {
        let row = &rows[p];
        let mut f: usize = 0;
        while f < 15
            invariant
                f <= 15,
                p < rows@.len() <= u32::MAX,
                *row == rows@[p as int],
                r@.len() == 15,
                forall|g: int| 0 <= g < f ==> #[trigger] r@[g] == count_of(rows@, a, g, p + 1),
                forall|g: int| f <= g < 15 ==> #[trigger] r@[g] == count_of(rows@, a, g, p as int),
            decreases 15 - f,
        {
            proof {
                lemma_count_of_bound(rows@, a, f as int, p as int);
            }
            if adds_exec(row, a, f) {
                let v = r[f] + 1;
                r.set(f, v);
            }
            f += 1;
        }
        p += 1;
    }
    r
}

// ---------------------------------------------------------------------------
// Forced ubers and rounds played
// ---------------------------------------------------------------------------

/// A hit on uber `c`'s Medic by the other colour in the [`FORCE_WINDOW_S`]
/// up to the pop.
pub open spec fn hit(d: Damage, c: ChargeSpan) -> bool {
    &&& d.victim.account == c.medic
    &&& d.attacker.team is Some
    &&& d.attacker.team != Some(c.team)
    &&& d.at <= c.from
    &&& c.from - d.at <= FORCE_WINDOW_S
}

/// The damage of those hits among the first `n`, all of it (`by` `None`)
/// or one attacker's.
pub open spec fn dealt(ds: Seq<Damage>, c: ChargeSpan, by: Option<u32>, n: int) -> int
    decreases n,
{
    if n <= 0 {
        0
    } else {
        dealt(ds, c, by, n - 1) + if hit(ds[n - 1], c) && (by matches Some(a) ==> ds[n - 1].attacker.account == a) {
            ds[n - 1].amount as int
        } else {
            0
        }
    }
}

/// Player `a` forced uber `c`: it took [`FORCE_DAMAGE`] in all, and at
/// least [`FORCE_SHARE`] of it from them.
pub open spec fn forced(ds: Seq<Damage>, c: ChargeSpan, a: u32) -> bool {
    &&& is_uber(c, c.team)
    &&& dealt(ds, c, None, ds.len() as int) >= FORCE_DAMAGE
    &&& dealt(ds, c, Some(a), ds.len() as int) >= FORCE_SHARE
}

pub open spec fn forces_upto(cs: Seq<ChargeSpan>, ds: Seq<Damage>, a: u32, n: int) -> nat
    decreases n,
{
    if n <= 0 {
        0
    } else {
        forces_upto(cs, ds, a, n - 1) + if forced(ds, cs[n - 1], a) {
            1nat
        } else {
            0nat
        }
    }
}

/// A life inside a round: not empty, and overlapping it (a round without
/// an end runs on).
pub open spec fn in_round(l: Life, r: Round) -> bool {
    let end: int = match r.end {
        Some(e) => e as int,
        None => i64::MAX as int,
    };
    l.to > l.from && l.from < end && l.to > r.start
}

pub open spec fn played(lives: Seq<Life>, r: Round, a: u32) -> bool {
    exists|i: int| 0 <= i < lives.len() && lives[i].account == a && #[trigger] in_round(lives[i], r)
}

pub open spec fn rounds_upto(lives: Seq<Life>, rounds: Seq<Round>, a: u32, n: int) -> nat
    decreases n,
{
    if n <= 0 {
        0
    } else {
        rounds_upto(lives, rounds, a, n - 1) + if played(lives, rounds[n - 1], a) {
            1nat
        } else {
            0nat
        }
    }
}

/// 2^63: no single hit is larger.
spec fn half() -> int {
    0x8000_0000_0000_0000
}

/// The damage on uber `c`'s Medic in the window, in all and from `a`.
fn dealt_exec(ds: &Vec<Damage>, c: &ChargeSpan, a: u32) -> (r: (i128, i128))
    requires
        ds@.len() <= u32::MAX,
    ensures
        r.0 == dealt(ds@, *c, None, ds@.len() as int),
        r.1 == dealt(ds@, *c, Some(a), ds@.len() as int),
{
    let mut all: i128 = 0;
    let mut mine: i128 = 0;
    let mut i: usize = 0;
    while i < ds.len()
        invariant
            i <= ds@.len() <= u32::MAX,
            all == dealt(ds@, *c, None, i as int),
            mine == dealt(ds@, *c, Some(a), i as int),
            -(i as int) * half() <= all <= (i as int) * half(),
            -(i as int) * half() <= mine <= (i as int) * half(),
        decreases ds@.len() - i,
    {
        let d = ds[i];
        let h = d.victim.account == c.medic && d.attacker.team.is_some() && !same_team(
            d.attacker.team,
            Some(c.team),
        ) && d.at <= c.from && (c.from as i128) - (d.at as i128) <= FORCE_WINDOW_S as i128;
        assert(h == hit(d, *c));
        if h {
            all = all + d.amount as i128;
            if d.attacker.account == a {
                mine = mine + d.amount as i128;
            }
        }
        i += 1;
    }
    (all, mine)
}

/// How many ubers player `a` forced.
fn forces_of(gs: &GameState, ds: &Vec<Damage>, a: u32) -> (r: u32)
    requires
        ds@.len() <= u32::MAX,
        gs.charges@.len() <= u32::MAX,
    ensures
        r == forces_upto(gs.charges@, ds@, a, gs.charges@.len() as int),
{
    let mut n: u32 = 0;
    let mut i: usize = 0;
    while i < gs.charges.len()
        invariant
            i <= gs.charges@.len() <= u32::MAX,
            ds@.len() <= u32::MAX,
            n == forces_upto(gs.charges@, ds@, a, i as int),
            n <= i,
        decreases gs.charges@.len() - i,
    {
        let c = &gs.charges[i];
        if is_uber_of(c, c.team) {
            let (all, mine) = dealt_exec(ds, c, a);
            if all >= FORCE_DAMAGE as i128 && mine >= FORCE_SHARE as i128 {
                n = n + 1;
            }
        }
        i += 1;
    }
    n
}

fn played_in(lives: &Vec<Life>, r: &Round, a: u32) -> (b: bool)
    ensures
        b == played(lives@, *r, a),
{
    let end: i64 = match r.end {
        Some(e) => e,
        None => i64::MAX,
    };
    let mut i: usize = 0;
    while i < lives.len()
        invariant
            i <= lives@.len(),
            end == match r.end {
                Some(e) => e as int,
                None => i64::MAX as int,
            },
            forall|j: int| 0 <= j < i ==> !(lives@[j].account == a && #[trigger] in_round(lives@[j], *r)),
        decreases lives@.len() - i,
    {
        let l = lives[i];
        if l.account == a && l.to > l.from && l.from < end && l.to > r.start {
            assert(in_round(lives@[i as int], *r));
            return true;
        }
        i += 1;
    }
    false
}

/// How many rounds player `a` was alive in at some point.
fn rounds_of(gs: &GameState, a: u32) -> (r: u32)
    requires
        gs.rounds@.len() <= u32::MAX,
    ensures
        r == rounds_upto(gs.lives@, gs.rounds@, a, gs.rounds@.len() as int),
{
    let mut n: u32 = 0;
    let mut i: usize = 0;
    while i < gs.rounds.len()
        invariant
            i <= gs.rounds@.len() <= u32::MAX,
            n == rounds_upto(gs.lives@, gs.rounds@, a, i as int),
            n <= i,
        decreases gs.rounds@.len() - i,
    {
        if played_in(&gs.lives, &gs.rounds[i], a) {
            n = n + 1;
        }
        i += 1;
    }
    n
}

// ---------------------------------------------------------------------------
// The players
// ---------------------------------------------------------------------------

pub open spec fn stats_spec(rows: Seq<KillRow>, gs: GameState, ds: Seq<Damage>, a: u32) -> FightStats {
    let n = rows.len() as int;
    FightStats {
        account_id: a,
        rounds: rounds_upto(gs.lives@, gs.rounds@, a, gs.rounds@.len() as int) as u32,
        kills: count_of(rows, a, 0, n) as u32,
        deaths: count_of(rows, a, 1, n) as u32,
        opening_kills: count_of(rows, a, 2, n) as u32,
        opening_deaths: count_of(rows, a, 3, n) as u32,
        first_picks: count_of(rows, a, 4, n) as u32,
        first_deaths: count_of(rows, a, 5, n) as u32,
        traded_kills: count_of(rows, a, 6, n) as u32,
        died_after_kill: count_of(rows, a, 7, n) as u32,
        trade_kills: count_of(rows, a, 8, n) as u32,
        cleanup_kills: count_of(rows, a, 9, n) as u32,
        charged_picks: count_of(rows, a, 10, n) as u32,
        drops: count_of(rows, a, 11, n) as u32,
        forces: forces_upto(gs.charges@, ds, a, gs.charges@.len() as int) as u32,
        deaths_before_uber: count_of(rows, a, 12, n) as u32,
        deaths_during_uber: count_of(rows, a, 13, n) as u32,
        deaths_after_uber: count_of(rows, a, 14, n) as u32,
    }
}

proof fn lemma_count_filter(rows: Seq<KillRow>, a: u32, f: int, pred: spec_fn(KillRow) -> bool)
    requires
        forall|r: KillRow| #[trigger] adds(r, a, f) == pred(r),
    ensures
        count_of(rows, a, f, rows.len() as int) == rows.filter(pred).len(),
    decreases rows.len(),
{
    reveal(Seq::filter);
    if rows.len() > 0 {
        let d = rows.drop_last();
        lemma_count_filter(d, a, f, pred);
        lemma_count_of_same(rows, d, a, f, d.len() as int);
        assert(adds(rows.last(), a, f) == pred(rows.last()));
    }
}

proof fn lemma_count_of_same(r1: Seq<KillRow>, r2: Seq<KillRow>, a: u32, f: int, n: int)
    requires
        0 <= n <= r1.len(),
        n <= r2.len(),
        forall|i: int| 0 <= i < n ==> r1[i] == r2[i],
    ensures
        count_of(r1, a, f, n) == count_of(r2, a, f, n),
    decreases n,
{
    if n > 0 {
        lemma_count_of_same(r1, r2, a, f, n - 1);
    }
}

/// Each of a player's kill counters counts the counted kills of the kind
/// it names: their kills and deaths, opening kills and deaths, first picks
/// and deaths, kills that were traded or that they died after, trades,
/// cleanups (their team already had more players alive), kills into a
/// charge, drops, and deaths before, during and after their team's uber.
pub proof fn lemma_counters_count_their_kills(
    rows: Seq<KillRow>,
    gs: GameState,
    ds: Seq<Damage>,
    a: u32,
)
    requires
        rows.len() <= u32::MAX,
    ensures
        stats_spec(rows, gs, ds, a).kills == rows.filter(|r: KillRow| r.killer == a).len(),
        stats_spec(rows, gs, ds, a).deaths == rows.filter(|r: KillRow| r.victim == a).len(),
        stats_spec(rows, gs, ds, a).opening_kills == rows.filter(|r: KillRow| r.killer == a && r.tags.opening).len(),
        stats_spec(rows, gs, ds, a).opening_deaths == rows.filter(|r: KillRow| r.victim == a && r.tags.opening).len(),
        stats_spec(rows, gs, ds, a).first_picks == rows.filter(|r: KillRow| r.killer == a && r.tags.first_of_round).len(),
        stats_spec(rows, gs, ds, a).first_deaths == rows.filter(|r: KillRow| r.victim == a && r.tags.first_of_round).len(),
        stats_spec(rows, gs, ds, a).traded_kills == rows.filter(|r: KillRow| r.killer == a && r.tags.traded).len(),
        stats_spec(rows, gs, ds, a).died_after_kill == rows.filter(|r: KillRow| r.killer == a && r.tags.died_after).len(),
        stats_spec(rows, gs, ds, a).trade_kills == rows.filter(|r: KillRow| r.killer == a && r.tags.trade).len(),
        stats_spec(rows, gs, ds, a).cleanup_kills == rows.filter(|r: KillRow| r.killer == a && r.tags.cleanup).len(),
        stats_spec(rows, gs, ds, a).charged_picks == rows.filter(|r: KillRow| r.killer == a && r.tags.into_charge).len(),
        stats_spec(rows, gs, ds, a).drops == rows.filter(|r: KillRow| r.killer == a && r.tags.drop).len(),
        stats_spec(rows, gs, ds, a).deaths_before_uber == rows.filter(|r: KillRow| r.victim == a && r.phase == Some(UberPhase::Before)).len(),
        stats_spec(rows, gs, ds, a).deaths_during_uber == rows.filter(|r: KillRow| r.victim == a && r.phase == Some(UberPhase::During)).len(),
        stats_spec(rows, gs, ds, a).deaths_after_uber == rows.filter(|r: KillRow| r.victim == a && r.phase == Some(UberPhase::After)).len(),
{
    lemma_count_filter(rows, a, 0, |r: KillRow| r.killer == a);
    lemma_count_filter(rows, a, 1, |r: KillRow| r.victim == a);
    lemma_count_filter(rows, a, 2, |r: KillRow| r.killer == a && r.tags.opening);
    lemma_count_filter(rows, a, 3, |r: KillRow| r.victim == a && r.tags.opening);
    lemma_count_filter(rows, a, 4, |r: KillRow| r.killer == a && r.tags.first_of_round);
    lemma_count_filter(rows, a, 5, |r: KillRow| r.victim == a && r.tags.first_of_round);
    lemma_count_filter(rows, a, 6, |r: KillRow| r.killer == a && r.tags.traded);
    lemma_count_filter(rows, a, 7, |r: KillRow| r.killer == a && r.tags.died_after);
    lemma_count_filter(rows, a, 8, |r: KillRow| r.killer == a && r.tags.trade);
    lemma_count_filter(rows, a, 9, |r: KillRow| r.killer == a && r.tags.cleanup);
    lemma_count_filter(rows, a, 10, |r: KillRow| r.killer == a && r.tags.into_charge);
    lemma_count_filter(rows, a, 11, |r: KillRow| r.killer == a && r.tags.drop);
    lemma_count_filter(rows, a, 12, |r: KillRow| r.victim == a && r.phase == Some(UberPhase::Before));
    lemma_count_filter(rows, a, 13, |r: KillRow| r.victim == a && r.phase == Some(UberPhase::During));
    lemma_count_filter(rows, a, 14, |r: KillRow| r.victim == a && r.phase == Some(UberPhase::After));
    assert forall|f: int| 0 <= f <= 14 implies count_of(rows, a, f, rows.len() as int) <= rows.len()
        by {
        lemma_count_of_bound(rows, a, f, rows.len() as int);
    }
}

/// A player the counts are about: in a counted kill, credited with a
/// forced uber, or alive in a round.
pub open spec fn involved(rows: Seq<KillRow>, gs: GameState, ds: Seq<Damage>, a: u32) -> bool {
    ||| exists|p: int| 0 <= p < rows.len() && #[trigger] in_kill(rows[p], a)
    ||| forces_upto(gs.charges@, ds, a, gs.charges@.len() as int) > 0
    ||| rounds_upto(gs.lives@, gs.rounds@, a, gs.rounds@.len() as int) > 0
}

pub open spec fn in_kill(r: KillRow, a: u32) -> bool {
    r.killer == a || r.victim == a
}

pub open spec fn rising(v: Seq<u32>) -> bool {
    forall|i: int, j: int| 0 <= i < j < v.len() ==> v[i] < v[j]
}

pub open spec fn ids(ps: Seq<FightStats>) -> Seq<u32> {
    ps.map_values(|s: FightStats| s.account_id)
}

#[verifier::spinoff_prover]
fn insert_sorted(v: &mut Vec<u32>, a: u32)
    requires
        rising(old(v)@),
    ensures
        rising(final(v)@),
        forall|x: u32| final(v)@.contains(x) <==> (old(v)@.contains(x) || x == a),
{
    let mut i: usize = 0;
    while i < v.len() && v[i] < a
        invariant
            i <= v@.len(),
            v@ == old(v)@,
            rising(v@),
            forall|j: int| 0 <= j < i ==> v@[j] < a,
        decreases v@.len() - i,
    {
        i += 1;
    }
    if i < v.len() && v[i] == a {
        assert(v@[i as int] == a);
        return;
    }
    let ghost before = v@;
    assert(before == old(v)@);
    v.insert(i, a);
    assert forall|x: u32| #![trigger v@.contains(x)] v@.contains(x) <==> (old(v)@.contains(x) || x == a) by {
        if v@.contains(x) {
            let k = choose|k: int| 0 <= k < v@.len() && v@[k] == x;
            if k < i {
                assert(before[k] == x);
            } else if k > i {
                assert(before[k - 1] == x);
            }
        }
        if before.contains(x) {
            let k = choose|k: int| 0 <= k < before.len() && before[k] == x;
            if k < i {
                assert(v@[k] == x);
            } else {
                assert(v@[k + 1] == x);
            }
        }
        if x == a {
            assert(v@[i as int] == x);
        }
    }
}

proof fn lemma_dealt_by_someone(ds: Seq<Damage>, c: ChargeSpan, a: u32, n: int)
    requires
        0 <= n <= ds.len(),
        dealt(ds, c, Some(a), n) != 0,
    ensures
        exists|j: int| 0 <= j < n && #[trigger] ds[j].attacker.account == a,
    decreases n,
{
    if n > 0 {
        if dealt(ds, c, Some(a), n - 1) != 0 {
            lemma_dealt_by_someone(ds, c, a, n - 1);
        } else {
            assert(ds[n - 1].attacker.account == a);
        }
    }
}

proof fn lemma_forces_from_hits(cs: Seq<ChargeSpan>, ds: Seq<Damage>, a: u32, n: int)
    requires
        0 <= n <= cs.len(),
        forces_upto(cs, ds, a, n) > 0,
    ensures
        exists|j: int| 0 <= j < ds.len() && #[trigger] ds[j].attacker.account == a,
    decreases n,
{
    if forces_upto(cs, ds, a, n - 1) > 0 {
        lemma_forces_from_hits(cs, ds, a, n - 1);
    } else {
        lemma_dealt_by_someone(ds, cs[n - 1], a, ds.len() as int);
    }
}

proof fn lemma_rounds_from_lives(lives: Seq<Life>, rounds: Seq<Round>, a: u32, n: int)
    requires
        0 <= n <= rounds.len(),
        rounds_upto(lives, rounds, a, n) > 0,
    ensures
        exists|j: int| 0 <= j < lives.len() && #[trigger] lives[j].account == a,
    decreases n,
{
    if rounds_upto(lives, rounds, a, n - 1) > 0 {
        lemma_rounds_from_lives(lives, rounds, a, n - 1);
    } else {
        let j = choose|j: int| 0 <= j < lives.len() && lives[j].account == a && #[trigger] in_round(lives[j], rounds[n - 1]);
        assert(lives[j].account == a);
    }
}

/// Every account the counts could be about, each once, rising.
fn candidates(rows: &Vec<KillRow>, gs: &GameState, ds: &Vec<Damage>) -> (v: Vec<u32>)
    ensures
        rising(v@),
        forall|a: u32| involved(rows@, *gs, ds@, a) ==> v@.contains(a),
{
    let mut v: Vec<u32> = Vec::new();
    let mut p: usize = 0;
    while p < rows.len()
        invariant
            p <= rows@.len(),
            rising(v@),
            forall|q: int| #![trigger rows@[q]] 0 <= q < p ==> v@.contains(rows@[q].killer) && v@.contains(rows@[q].victim),
        decreases rows@.len() - p,
    {
        let ghost v0 = v@;
        insert_sorted(&mut v, rows[p].killer);
        let ghost v1 = v@;
        insert_sorted(&mut v, rows[p].victim);
        assert forall|q: int| 0 <= q <= p implies v@.contains(#[trigger] rows@[q].killer) && v@.contains(rows@[q].victim) by {
            if q < p {
                assert(v0.contains(rows@[q].killer) && v0.contains(rows@[q].victim));
                assert(v1.contains(rows@[q].killer) && v1.contains(rows@[q].victim));
            } else {
                assert(v1.contains(rows@[q].killer));
            }
        }
        p += 1;
    }
    let mut j: usize = 0;
    while j < ds.len()
        invariant
            j <= ds@.len(),
            rising(v@),
            forall|q: int| #![trigger rows@[q]] 0 <= q < rows@.len() ==> v@.contains(rows@[q].killer) && v@.contains(rows@[q].victim),
            forall|q: int| 0 <= q < j ==> v@.contains(#[trigger] ds@[q].attacker.account),
        decreases ds@.len() - j,
    {
        let ghost v0 = v@;
        insert_sorted(&mut v, ds[j].attacker.account);
        assert forall|q: int| 0 <= q < rows@.len() implies v@.contains(#[trigger] rows@[q].killer) && v@.contains(rows@[q].victim) by {
            assert(v0.contains(rows@[q].killer) && v0.contains(rows@[q].victim));
        }
        assert forall|q: int| 0 <= q <= j implies v@.contains(#[trigger] ds@[q].attacker.account) by {
            if q < j {
                assert(v0.contains(ds@[q].attacker.account));
            }
        }
        j += 1;
    }
    let mut l: usize = 0;
    while l < gs.lives.len()
        invariant
            l <= gs.lives@.len(),
            rising(v@),
            forall|q: int| #![trigger rows@[q]] 0 <= q < rows@.len() ==> v@.contains(rows@[q].killer) && v@.contains(rows@[q].victim),
            forall|q: int| 0 <= q < ds@.len() ==> v@.contains(#[trigger] ds@[q].attacker.account),
            forall|q: int| 0 <= q < l ==> v@.contains(#[trigger] gs.lives@[q].account),
        decreases gs.lives@.len() - l,
    {
        let ghost v0 = v@;
        insert_sorted(&mut v, gs.lives[l].account);
        assert forall|q: int| 0 <= q < rows@.len() implies v@.contains(#[trigger] rows@[q].killer) && v@.contains(rows@[q].victim) by {
            assert(v0.contains(rows@[q].killer) && v0.contains(rows@[q].victim));
        }
        assert forall|q: int| 0 <= q < ds@.len() implies v@.contains(#[trigger] ds@[q].attacker.account) by {
            assert(v0.contains(ds@[q].attacker.account));
        }
        assert forall|q: int| 0 <= q <= l implies v@.contains(#[trigger] gs.lives@[q].account) by {
            if q < l {
                assert(v0.contains(gs.lives@[q].account));
            }
        }
        l += 1;
    }
    assert forall|a: u32| involved(rows@, *gs, ds@, a) implies v@.contains(a) by {
        if exists|p: int| 0 <= p < rows@.len() && #[trigger] in_kill(rows@[p], a) {
            let p = choose|p: int| 0 <= p < rows@.len() && #[trigger] in_kill(rows@[p], a);
            assert(v@.contains(rows@[p].killer) && v@.contains(rows@[p].victim));
        } else if forces_upto(gs.charges@, ds@, a, gs.charges@.len() as int) > 0 {
            lemma_forces_from_hits(gs.charges@, ds@, a, gs.charges@.len() as int);
            let q = choose|q: int| 0 <= q < ds@.len() && #[trigger] ds@[q].attacker.account == a;
            assert(v@.contains(ds@[q].attacker.account));
        } else {
            lemma_rounds_from_lives(gs.lives@, gs.rounds@, a, gs.rounds@.len() as int);
            let q = choose|q: int| 0 <= q < gs.lives@.len() && #[trigger] gs.lives@[q].account == a;
            assert(v@.contains(gs.lives@[q].account));
        }
    }
    v
}

proof fn lemma_count_pos(rows: Seq<KillRow>, a: u32, f: int, n: int)
    requires
        0 <= n <= rows.len(),
        f == 0 || f == 1,
    ensures
        (count_of(rows, a, f, n) > 0) == exists|p: int|
            0 <= p < n && #[trigger] adds(rows[p], a, f),
    decreases n,
{
    if n > 0 {
        lemma_count_pos(rows, a, f, n - 1);
        if count_of(rows, a, f, n - 1) > 0 {
            let p = choose|p: int| 0 <= p < n - 1 && #[trigger] adds(rows[p], a, f);
            assert(0 <= p < n && adds(rows[p], a, f));
        }
    }
}

// ---------------------------------------------------------------------------
// First picks
// ---------------------------------------------------------------------------

/// The first of the game state's rounds, from `j` on, that started at `start`.
pub open spec fn round_starting(rounds: Seq<Round>, start: i64, j: int) -> Option<int>
    decreases rounds.len() - j,
{
    if j < 0 || j >= rounds.len() {
        None
    } else if rounds[j].start == start {
        Some(j)
    } else {
        round_starting(rounds, start, j + 1)
    }
}

/// When the raw log's round `round` (1-based) went live: the end of its
/// setup when the game state has one, else its start.
pub open spec fn live_spec(starts: Seq<i64>, rounds: Seq<Round>, round: u32) -> Option<i64> {
    if round == 0 || round > starts.len() {
        None
    } else {
        let start = starts[round - 1];
        match round_starting(rounds, start, 0) {
            Some(j) => match rounds[j].setup_end {
                Some(e) => Some(e),
                None => Some(start),
            },
            None => Some(start),
        }
    }
}

pub open spec fn pick_spec(ks: Seq<KillV>, is: Seq<int>, starts: Seq<i64>, rounds: Seq<Round>, p: int) -> FirstPick {
    let k = nth(ks, is, p);
    let live: int = match live_spec(starts, rounds, k.round) {
        Some(l) => l as int,
        None => k.at as int,
    };
    let d = k.at - live;
    FirstPick {
        round: k.round,
        after_s: if d < 0 {
            0
        } else if d > i64::MAX {
            i64::MAX
        } else {
            d as i64
        },
        killer: k.killer.account,
        victim: k.victim.account,
    }
}

/// The first kill of each run of one round, among the first `n` counted.
pub open spec fn picks_upto(ks: Seq<KillV>, is: Seq<int>, starts: Seq<i64>, rounds: Seq<Round>, n: int) -> Seq<FirstPick>
    decreases n,
{
    if n <= 0 {
        Seq::empty()
    } else {
        let prev = picks_upto(ks, is, starts, rounds, n - 1);
        if starts_round(ks, is, n - 1) {
            prev.push(pick_spec(ks, is, starts, rounds, n - 1))
        } else {
            prev
        }
    }
}

fn live_from(starts: &Vec<i64>, rounds: &Vec<Round>, round: u32) -> (r: Option<i64>)
    ensures
        r == live_spec(starts@, rounds@, round),
{
    if round == 0 || round as usize > starts.len() {
        return None;
    }
    let start = starts[round as usize - 1];
    let mut j: usize = 0;
    while j < rounds.len()
        invariant
            j <= rounds@.len(),
            0 < round <= starts@.len(),
            start == starts@[round - 1],
            round_starting(rounds@, start, 0) == round_starting(rounds@, start, j as int),
        decreases rounds@.len() - j,
    {
        if rounds[j].start == start {
            return match rounds[j].setup_end {
                Some(e) => Some(e),
                None => Some(start),
            };
        }
        j += 1;
    }
    Some(start)
}

// ---------------------------------------------------------------------------
// The whole match
// ---------------------------------------------------------------------------

pub open spec fn counted_of(raw: &RawLog) -> Seq<int> {
    counted_upto(kills_of(raw), kills_of(raw).len() as int)
}

/// Where kill `i` stands among the counted kills.
pub open spec fn place(is: Seq<int>, i: int) -> int {
    choose|p: int| 0 <= p < is.len() && is[p] == i
}

/// Every kill's tags, aligned with the raw log's kills.
pub open spec fn tags_of(raw: &RawLog, gs: GameState, charged: Seq<bool>) -> Seq<Option<KillTags>> {
    let ks = kills_of(raw);
    let is = counted_of(raw);
    Seq::new(
        ks.len(),
        |i: int|
            if counted(ks, i) {
                Some(tag_spec(ks, is, gs, charged, place(is, i)))
            } else {
                None
            },
    )
}

pub open spec fn rows_of(raw: &RawLog, gs: GameState, charged: Seq<bool>) -> Seq<KillRow> {
    Seq::new(counted_of(raw).len(), |p: int| row_spec(kills_of(raw), counted_of(raw), gs, charged, p))
}

/// Whether, the second before each kill, the victim's colour held a ready
/// charge. A kill at the clock's first instant has no second before it.
pub open spec fn charged_spec(ks: Seq<KillV>, gs: GameState) -> Seq<bool> {
    Seq::new(
        ks.len(),
        |i: int|
            match ks[i].victim.team {
                Some(vt) => ks[i].at > i64::MIN && best_charge(
                    gs.charges@,
                    vt,
                    ks[i].at - 1,
                    gs.charges@.len() as int,
                ) == Charge::Ready,
                None => false,
            },
    )
}

pub(crate) fn charged_before(raw: &RawLog, gs: &GameState) -> (r: Vec<bool>)
    ensures
        r@ == charged_spec(kills_of(raw), *gs),
{
    let ghost ks = kills_of(raw);
    let mut out: Vec<bool> = Vec::new();
    let mut i: usize = 0;
    while i < raw.kills.len()
        invariant
            i <= raw.kills@.len(),
            ks == kills_of(raw),
            out@.len() == i,
            forall|j: int| 0 <= j < i ==> #[trigger] out@[j] == charged_spec(ks, *gs)[j],
        decreases raw.kills@.len() - i,
    {
        let k = &raw.kills[i];
        assert(ks[i as int] == k@);
        let c = match k.victim.team {
            Some(vt) => k.at > i64::MIN && gs.charge_at(vt, k.at - 1).ready(),
            None => false,
        };
        out.push(c);
        i += 1;
    }
    assert(out@ =~= charged_spec(ks, *gs));
    out
}

/// Every counted kill's tags, each player's counts and each round's first
/// pick, from a raw log and its game state. Kills count once: inside a
/// round, not a feign, between two players of opposite colours, and not a
/// repeat of an earlier line for the same second, pair and weapon.
pub fn analyse(raw: &RawLog, gs: &GameState) -> (r: Fights)
    requires
        raw.kills@.len() <= u32::MAX,
        raw.damage@.len() <= u32::MAX,
        gs.charges@.len() <= u32::MAX,
        gs.rounds@.len() <= u32::MAX,
        times_ok(kills_of(raw)),
    ensures
        r.tags@.len() == raw.kills@.len(),
        r.tags@ == tags_of(raw, *gs, charged_spec(kills_of(raw), *gs)),
        forall|i: int|
            0 <= i < raw.kills@.len() && !counted(kills_of(raw), i) ==> #[trigger] r.tags@[i] is None,
        forall|p: int|
            0 <= p < counted_of(raw).len() ==> r.tags@[#[trigger] counted_of(raw)[p]] == Some(
                tag_spec(kills_of(raw), counted_of(raw), *gs, charged_spec(kills_of(raw), *gs), p),
            ),
        rising(ids(r.players@)),
        forall|k: int|
            0 <= k < r.players@.len() ==> #[trigger] r.players@[k] == stats_spec(
                rows_of(raw, *gs, charged_spec(kills_of(raw), *gs)),
                *gs,
                raw.damage@,
                r.players@[k].account_id,
            ),
        forall|a: u32|
            involved(rows_of(raw, *gs, charged_spec(kills_of(raw), *gs)), *gs, raw.damage@, a) <==> ids(r.players@).contains(a),
        r.first_picks@ == picks_upto(
            kills_of(raw),
            counted_of(raw),
            raw.round_starts@,
            gs.rounds@,
            counted_of(raw).len() as int,
        ),
{
    let charged = charged_before(raw, gs);
    analyse_with(raw, gs, charged.as_slice())
}

/// As [`analyse`], with the charge readings given: `charged` says, for each
/// kill of the raw log, whether the victim's colour held a ready charge the
/// second before it.
pub(crate) fn analyse_with(raw: &RawLog, gs: &GameState, charged: &[bool]) -> (r: Fights)
    requires
        charged@.len() == raw.kills@.len(),
        raw.kills@.len() <= u32::MAX,
        raw.damage@.len() <= u32::MAX,
        gs.charges@.len() <= u32::MAX,
        gs.rounds@.len() <= u32::MAX,
        times_ok(kills_of(raw)),
    ensures
        r.tags@.len() == raw.kills@.len(),
        r.tags@ == tags_of(raw, *gs, charged@),
        forall|i: int|
            0 <= i < raw.kills@.len() && !counted(kills_of(raw), i) ==> #[trigger] r.tags@[i] is None,
        forall|p: int|
            0 <= p < counted_of(raw).len() ==> r.tags@[#[trigger] counted_of(raw)[p]] == Some(
                tag_spec(kills_of(raw), counted_of(raw), *gs, charged@, p),
            ),
        rising(ids(r.players@)),
        forall|k: int|
            0 <= k < r.players@.len() ==> #[trigger] r.players@[k] == stats_spec(
                rows_of(raw, *gs, charged@),
                *gs,
                raw.damage@,
                r.players@[k].account_id,
            ),
        forall|a: u32|
            involved(rows_of(raw, *gs, charged@), *gs, raw.damage@, a) <==> ids(r.players@).contains(a),
        r.first_picks@ == picks_upto(
            kills_of(raw),
            counted_of(raw),
            raw.round_starts@,
            gs.rounds@,
            counted_of(raw).len() as int,
        ),
{
    let ghost ks = kills_of(raw);
    let ghost is = counted_of(raw);
    let idx = counted_kills(&raw.kills);
    proof {
        assert(ix(idx@) =~= is);
        lemma_counted_upto_bounds(ks, ks.len() as int);
    }
    let kt = tag_all(&raw.kills, &idx, gs, charged);
    // One row per counted kill.
    let mut rows: Vec<KillRow> = Vec::new();
    let mut p: usize = 0;
    while p < idx.len()
        invariant
            p <= idx@.len(),
            ks == kills_of(raw),
            is == counted_of(raw),
            ix(idx@) == is,
            well_indexed(ks, is),
            kt@.len() == idx@.len(),
            forall|q: int| 0 <= q < idx@.len() ==> #[trigger] kt@[q] == tag_spec(ks, is, *gs, charged@, q),
            rows@.len() == p,
            forall|q: int| 0 <= q < p ==> #[trigger] rows@[q] == row_spec(ks, is, *gs, charged@, q),
        decreases idx@.len() - p,
    {
        assert(ks[is[p as int]] == raw.kills@[idx@[p as int] as int]@);
        let k = &raw.kills[idx[p]];
        let phase = uber_phase(gs, k.victim.team.unwrap(), k.at);
        rows.push(KillRow { killer: k.killer.account, victim: k.victim.account, tags: kt[p], phase });
        p += 1;
    }
    assert(rows@ =~= rows_of(raw, *gs, charged@));
    // Tags aligned with the raw log's kills.
    let mut tags: Vec<Option<KillTags>> = Vec::new();
    let mut i: usize = 0;
    while i < raw.kills.len()
        invariant
            i <= raw.kills@.len(),
            tags@.len() == i,
            forall|j: int| 0 <= j < i ==> #[trigger] tags@[j] is None,
        decreases raw.kills@.len() - i,
    {
        tags.push(None);
        i += 1;
    }
    let mut p: usize = 0;
    while p < idx.len()
        invariant
            p <= idx@.len(),
            ks == kills_of(raw),
            is == counted_of(raw),
            ix(idx@) == is,
            well_indexed(ks, is),
            forall|q: int, w: int| 0 <= q < w < is.len() ==> #[trigger] is[q] < #[trigger] is[w],
            kt@.len() == idx@.len(),
            forall|q: int| 0 <= q < idx@.len() ==> #[trigger] kt@[q] == tag_spec(ks, is, *gs, charged@, q),
            tags@.len() == raw.kills@.len(),
            forall|q: int| 0 <= q < p ==> tags@[#[trigger] is[q]] == Some(tag_spec(ks, is, *gs, charged@, q)),
            forall|j: int| 0 <= j < tags@.len() && (forall|q: int| 0 <= q < p ==> #[trigger] is[q] != j) ==> #[trigger] tags@[j] is None,
        decreases idx@.len() - p,
    {
        let at = idx[p];
        tags.set(at, Some(kt[p]));
        assert forall|q: int| 0 <= q <= p implies tags@[#[trigger] is[q]] == Some(tag_spec(ks, is, *gs, charged@, q)) by {
            if q < p {
                assert(is[q] < is[p as int]);
            }
        }
        p += 1;
    }
    assert forall|j: int| 0 <= j < raw.kills@.len() && !counted(ks, j) implies #[trigger] tags@[j] is None by {
        assert forall|q: int| 0 <= q < idx@.len() implies #[trigger] is[q] != j by {
            assert(counted(ks, is[q]));
        }
    }
    assert(tags@ =~= tags_of(raw, *gs, charged@)) by {
        assert forall|j: int| 0 <= j < raw.kills@.len() implies #[trigger] tags@[j] == tags_of(raw, *gs, charged@)[j] by {
            if counted(ks, j) {
                assert(is.contains(j));
                let p = place(is, j);
                assert(0 <= p < is.len() && is[p] == j);
                assert(tags@[is[p]] == Some(tag_spec(ks, is, *gs, charged@, p)));
            }
        }
    }
    // The players.
    let cands = candidates(&rows, gs, &raw.damage);
    let ghost rs = rows@;
    let mut players: Vec<FightStats> = Vec::new();
    let mut c: usize = 0;
    while c < cands.len()
        invariant
            c <= cands@.len(),
            rs == rows@,
            rs == rows_of(raw, *gs, charged@),
            rows@.len() <= u32::MAX,
            raw.damage@.len() <= u32::MAX,
            gs.charges@.len() <= u32::MAX,
            gs.rounds@.len() <= u32::MAX,
            rising(cands@),
            forall|a: u32| involved(rs, *gs, raw.damage@, a) ==> cands@.contains(a),
            rising(ids(players@)),
            forall|k: int| 0 <= k < players@.len() ==> #[trigger] players@[k] == stats_spec(rs, *gs, raw.damage@, players@[k].account_id),
            forall|k: int| 0 <= k < players@.len() ==> involved(rs, *gs, raw.damage@, #[trigger] players@[k].account_id),
            forall|k: int, j: int| 0 <= k < players@.len() && c <= j < cands@.len() ==> #[trigger] players@[k].account_id < #[trigger] cands@[j],
            forall|j: int| 0 <= j < c && involved(rs, *gs, raw.damage@, #[trigger] cands@[j]) ==> ids(players@).contains(cands@[j]),
        decreases cands@.len() - c,
    {
        let a = cands[c];
        let n = counters(&rows, a);
        let f = forces_of(gs, &raw.damage, a);
        let r = rounds_of(gs, a);
        proof {
            lemma_count_pos(rs, a, 0, rs.len() as int);
            lemma_count_pos(rs, a, 1, rs.len() as int);
        }
        let inv = n[0] > 0 || n[1] > 0 || f > 0 || r > 0;
        assert(inv == involved(rs, *gs, raw.damage@, a)) by {
            if exists|p: int| 0 <= p < rs.len() && #[trigger] in_kill(rs[p], a) {
                let p = choose|p: int| 0 <= p < rs.len() && #[trigger] in_kill(rs[p], a);
                if rs[p].killer == a {
                    assert(adds(rs[p], a, 0));
                } else {
                    assert(rs[p].victim == a);
                    assert(adds(rs[p], a, 1));
                }
            }
            if n[0] > 0 {
                let p = choose|p: int| 0 <= p < rs.len() && #[trigger] adds(rs[p], a, 0);
                assert(in_kill(rs[p], a));
            }
            if n[1] > 0 {
                let p = choose|p: int| 0 <= p < rs.len() && #[trigger] adds(rs[p], a, 1);
                assert(in_kill(rs[p], a));
            }
        }
        let ghost before = players@;
        if inv {
            players.push(
                FightStats {
                    account_id: a,
                    rounds: r,
                    kills: n[0],
                    deaths: n[1],
                    opening_kills: n[2],
                    opening_deaths: n[3],
                    first_picks: n[4],
                    first_deaths: n[5],
                    traded_kills: n[6],
                    died_after_kill: n[7],
                    trade_kills: n[8],
                    cleanup_kills: n[9],
                    charged_picks: n[10],
                    drops: n[11],
                    forces: f,
                    deaths_before_uber: n[12],
                    deaths_during_uber: n[13],
                    deaths_after_uber: n[14],
                },
            );
            assert(players@[players@.len() - 1] == stats_spec(rs, *gs, raw.damage@, a));
            assert(ids(players@) =~= ids(before).push(a));
        }
        proof {
            assert forall|k: int, j: int| 0 <= k < players@.len() && c + 1 <= j < cands@.len() implies #[trigger] players@[k].account_id < #[trigger] cands@[j] by {
                if k < before.len() {
                    assert(before[k].account_id < cands@[j]);
                } else {
                    assert(cands@[c as int] < cands@[j]);
                }
            }
            assert forall|j: int| 0 <= j < c + 1 && involved(rs, *gs, raw.damage@, #[trigger] cands@[j]) implies ids(players@).contains(cands@[j]) by {
                if j < c {
                    let k = choose|k: int| 0 <= k < ids(before).len() && ids(before)[k] == cands@[j];
                    assert(ids(players@)[k] == cands@[j]);
                } else {
                    assert(ids(players@)[players@.len() - 1] == a);
                }
            }
        }
        c += 1;
    }
    assert forall|a: u32| involved(rs, *gs, raw.damage@, a) <==> ids(players@).contains(a) by {
        if involved(rs, *gs, raw.damage@, a) {
            assert(cands@.contains(a));
            let j = choose|j: int| 0 <= j < cands@.len() && cands@[j] == a;
            assert(involved(rs, *gs, raw.damage@, cands@[j]));
        }
        if ids(players@).contains(a) {
            let k = choose|k: int| 0 <= k < ids(players@).len() && ids(players@)[k] == a;
            assert(involved(rs, *gs, raw.damage@, players@[k].account_id));
        }
    }
    // First picks.
    let mut picks: Vec<FirstPick> = Vec::new();
    let mut p: usize = 0;
    while p < idx.len()
        invariant
            p <= idx@.len(),
            ks == kills_of(raw),
            is == counted_of(raw),
            ix(idx@) == is,
            well_indexed(ks, is),
            kt@.len() == idx@.len(),
            forall|q: int| 0 <= q < idx@.len() ==> #[trigger] kt@[q] == tag_spec(ks, is, *gs, charged@, q),
            picks@ == picks_upto(ks, is, raw.round_starts@, gs.rounds@, p as int),
        decreases idx@.len() - p,
    {
        if kt[p].first_of_round {
            assert(ks[is[p as int]] == raw.kills@[idx@[p as int] as int]@);
            let k = &raw.kills[idx[p]];
            let live = match live_from(&raw.round_starts, &gs.rounds, k.round) {
                Some(l) => l,
                None => k.at,
            };
            let d: i128 = k.at as i128 - live as i128;
            let after_s: i64 = if d < 0 {
                0
            } else if d > i64::MAX as i128 {
                i64::MAX
            } else {
                d as i64
            };
            picks.push(FirstPick { round: k.round, after_s, killer: k.killer.account, victim: k.victim.account });
        }
        p += 1;
    }
    Fights { tags, players, first_picks: picks }
}

} // verus!
