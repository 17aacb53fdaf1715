//! What a kill is worth in its situation: the numbers difference and the
//! uber advantage just before it, tallied per state for the killer's side
//! and, flipped, for the victim's.
//!
//! The rates and factors computed from the tallies are floating point and
//! stand outside this library; the states, the map modes and the tallying
//! are here.
use crate::fights::{alive_n, analyse_with, charged_before, charged_spec, counted, eligible, kills_of, tags_of, times_ok, KillTags};
use crate::matchdata::Team;
use crate::rawlog::{Kill, KillV, RawLog};
use crate::state::{advantage_spec, best_charge, round_index, Cap, GameState, Round};
use crate::text::{chars_of, has_prefix, lower_s, lowered, starts_with};
use vstd::prelude::*;

verus! {

/// Numbers differences beyond this are counted with it.
pub const MAX_DIFF: i8 = 4;
/// States seen fewer times than this take the factor of the next state
/// toward even numbers.
pub const MIN_SAMPLES: u32 = 200;

/// The state of one kill, from the killer's side.
#[derive(Debug, Clone, Copy, PartialEq, Eq, Structural, Hash)]
pub struct KillState {
    /// Killer's team alive minus the victim's, just before, clamped to ±[`MAX_DIFF`].
    pub diff: i8,
    /// Uber advantage just before: 1 the killer's team, -1 the victim's, 0 neither.
    pub adv: i8,
}

impl KillState {
    /// The same moment seen from the other side.
    pub fn flip(self) -> (r: KillState)
        requires
            self.diff > i8::MIN,
            self.adv > i8::MIN,
        ensures
            r.diff == -self.diff,
            r.adv == -self.adv,
    {
        KillState { diff: -self.diff, adv: -self.adv }
    }
}

/// Team-moments and kills in one state.
#[derive(Debug, Clone, Copy, Default, PartialEq, Eq)]
pub struct Tally {
    /// Team-moments in this state, and how many of those teams won.
    pub seen: u32,
    pub won: u32,
    /// Kills made from this state, and how many of those killers' teams won.
    pub kills: u32,
    pub kills_won: u32,
}

pub open spec fn empty_tally() -> Tally {
    Tally { seen: 0, won: 0, kills: 0, kills_won: 0 }
}

/// A state's tally in a list of them: the first entry for it, else nothing yet.
pub open spec fn tally_of(t: Seq<(KillState, Tally)>, s: KillState) -> Tally
    decreases t.len(),
{
    if t.len() == 0 {
        empty_tally()
    } else if t[0].0 == s {
        t[0].1
    } else {
        tally_of(t.drop_first(), s)
    }
}

/// One side of a kill: a moment seen in `s`, won or not, and a kill made
/// from it when `kill`.
pub open spec fn bumped(x: Tally, won: bool, kill: bool) -> Tally {
    Tally {
        seen: (x.seen + 1) as u32,
        won: (x.won + if won {
            1int
        } else {
            0int
        }) as u32,
        kills: (x.kills + if kill {
            1int
        } else {
            0int
        }) as u32,
        kills_won: (x.kills_won + if kill && won {
            1int
        } else {
            0int
        }) as u32,
    }
}

/// Room for `m` more moments in every tally.
pub open spec fn has_room(t: Seq<(KillState, Tally)>, m: int) -> bool {
    forall|i: int|
        0 <= i < t.len() ==> (#[trigger] t[i]).1.seen + m < u32::MAX && t[i].1.won + m < u32::MAX
            && t[i].1.kills + m < u32::MAX && t[i].1.kills_won + m < u32::MAX
}

/// Tallies per state, for winning the fight and winning the round, each
/// state listed once.
#[derive(Debug, Clone, Default)]
pub struct Tallies {
    pub fight: Vec<(KillState, Tally)>,
    pub round: Vec<(KillState, Tally)>,
    pub logs: usize,
    pub kills: usize,
}

/// The tally kept for `s`: empty when the state was never seen.
pub fn tally(t: &[(KillState, Tally)], s: KillState) -> (r: Tally)
    ensures
        r == tally_of(t@, s),
{
    let mut i: usize = 0;
    assert(t@.skip(0) =~= t@);
    while i < t.len()
        invariant
            i <= t@.len(),
            tally_of(t@, s) == tally_of(t@.skip(i as int), s),
        decreases t@.len() - i,
    {
        if t[i].0 == s {
            return t[i].1;
        }
        assert(t@.skip(i as int).drop_first() =~= t@.skip(i + 1));
        i += 1;
    }
    Tally { seen: 0, won: 0, kills: 0, kills_won: 0 }
}

/// The entry for `s`, added empty at the end if there is none.
fn entry(t: &mut Vec<(KillState, Tally)>, s: KillState) -> (i: usize)
    ensures
        i < final(t)@.len(),
        final(t)@[i as int].0 == s,
        final(t)@[i as int].1 == tally_of(old(t)@, s),
        forall|k: KillState| #[trigger] tally_of(final(t)@, k) == tally_of(old(t)@, k),
        forall|j: int| 0 <= j < i ==> (#[trigger] final(t)@[j]).0 != s,
        has_room(old(t)@, 0) ==> has_room(final(t)@, 0),
        has_room(old(t)@, 1) ==> has_room(final(t)@, 1),
        forall|m: int|
            #![trigger has_room(old(t)@, m)]
            0 <= m < u32::MAX && has_room(old(t)@, m) ==> has_room(final(t)@, m),
        final(t)@.len() <= old(t)@.len() + 1,
{
    let mut i: usize = 0;
    assert(t@.skip(0) =~= t@);
    while i < t.len()
        invariant
            i <= t@.len(),
            forall|j: int| 0 <= j < i ==> (#[trigger] t@[j]).0 != s,
            tally_of(t@, s) == tally_of(t@.skip(i as int), s),
        decreases t@.len() - i,
    {
        if t[i].0 == s {
            return i;
        }
        assert(t@.skip(i as int).drop_first() =~= t@.skip(i + 1));
        i += 1;
    }
    let ghost before = t@;
    t.push((s, Tally { seen: 0, won: 0, kills: 0, kills_won: 0 }));
    proof {
        lemma_tally_push(before, s);
    }
    i
}

proof fn lemma_tally_push(t: Seq<(KillState, Tally)>, s: KillState)
    requires
        forall|j: int| 0 <= j < t.len() ==> (#[trigger] t[j]).0 != s,
    ensures
        forall|k: KillState| #[trigger] tally_of(t.push((s, empty_tally())), k) == tally_of(t, k),
    decreases t.len(),
{
    assert forall|k: KillState| #[trigger] tally_of(t.push((s, empty_tally())), k) == tally_of(t, k) by {
        lemma_tally_push_one(t, s, k);
    }
}

proof fn lemma_tally_push_one(t: Seq<(KillState, Tally)>, s: KillState, k: KillState)
    requires
        forall|j: int| 0 <= j < t.len() ==> (#[trigger] t[j]).0 != s,
    ensures
        tally_of(t.push((s, empty_tally())), k) == tally_of(t, k),
    decreases t.len(),
{
    if t.len() > 0 {
        assert(t.push((s, empty_tally())).drop_first() =~= t.drop_first().push((s, empty_tally())));
        assert forall|j: int| 0 <= j < t.drop_first().len() implies (#[trigger] t.drop_first()[j]).0 != s by {
            assert(t.drop_first()[j] == t[j + 1]);
        }
        lemma_tally_push_one(t.drop_first(), s, k);
    } else {
        reveal_with_fuel(tally_of, 2);
        assert(t.push((s, empty_tally())).drop_first() =~= Seq::<(KillState, Tally)>::empty());
    }
}

proof fn lemma_tally_update(t: Seq<(KillState, Tally)>, i: int, x: Tally)
    requires
        0 <= i < t.len(),
        forall|j: int| 0 <= j < i ==> (#[trigger] t[j]).0 != t[i].0,
    ensures
        forall|k: KillState|
            #[trigger] tally_of(t.update(i, (t[i].0, x)), k) == if k == t[i].0 {
                x
            } else {
                tally_of(t, k)
            },
    decreases i,
{
    assert forall|k: KillState|
        #[trigger] tally_of(t.update(i, (t[i].0, x)), k) == if k == t[i].0 {
            x
        } else {
            tally_of(t, k)
        } by {
        lemma_tally_update_one(t, i, x, k);
    }
}

proof fn lemma_tally_update_one(t: Seq<(KillState, Tally)>, i: int, x: Tally, k: KillState)
    requires
        0 <= i < t.len(),
        forall|j: int| 0 <= j < i ==> (#[trigger] t[j]).0 != t[i].0,
    ensures
        tally_of(t.update(i, (t[i].0, x)), k) == if k == t[i].0 {
            x
        } else {
            tally_of(t, k)
        },
    decreases i,
{
    if i > 0 {
        let u = t.drop_first();
        assert(t.update(i, (t[i].0, x)).drop_first() =~= u.update(i - 1, (u[i - 1].0, x)));
        assert forall|j: int| 0 <= j < i - 1 implies (#[trigger] u[j]).0 != u[i - 1].0 by {
            assert(u[j] == t[j + 1]);
        }
        lemma_tally_update_one(u, i - 1, x, k);
    } else {
        assert(t.update(0, (t[0].0, x)).drop_first() =~= t.drop_first());
    }
}

fn bump(t: &mut Vec<(KillState, Tally)>, s: KillState, won: bool, kill: bool)
    requires
        has_room(old(t)@, 0),
    ensures
        forall|k: KillState|
            #[trigger] tally_of(final(t)@, k) == if k == s {
                bumped(tally_of(old(t)@, s), won, kill)
            } else {
                tally_of(old(t)@, k)
            },
        final(t)@.len() <= old(t)@.len() + 1,
        has_room(old(t)@, 1) ==> has_room(final(t)@, 0),
        forall|m: int|
            #![trigger has_room(old(t)@, m)]
            1 <= m < u32::MAX && has_room(old(t)@, m) ==> has_room(final(t)@, m - 1),
{
    let i = entry(t, s);
    let ghost mid = t@;
    let x = t[i].1;
    let y = Tally {
        seen: x.seen + 1,
        won: x.won + if won {
            1
        } else {
            0
        },
        kills: x.kills + if kill {
            1
        } else {
            0
        },
        kills_won: x.kills_won + if kill && won {
            1
        } else {
            0
        },
    };
    t.set(i, (s, y));
    proof {
        assert forall|m: int|
            #![trigger has_room(old(t)@, m)]
            1 <= m < u32::MAX && has_room(old(t)@, m) implies has_room(t@, m - 1) by {
            assert(has_room(mid, m));
            assert forall|j: int| 0 <= j < t@.len() implies (#[trigger] t@[j]).1.seen + (m - 1) < u32::MAX
                && t@[j].1.won + (m - 1) < u32::MAX && t@[j].1.kills + (m - 1) < u32::MAX
                && t@[j].1.kills_won + (m - 1) < u32::MAX by {
                if j != i {
                    assert(t@[j] == mid[j]);
                } else {
                    assert(mid[j] == mid[i as int]);
                }
            }
        }
        lemma_tally_update(mid, i as int, y);
        if has_room(old(t)@, 1) {
            assert(has_room(mid, 1));
            assert forall|j: int| 0 <= j < t@.len() implies (#[trigger] t@[j]).1.seen < u32::MAX
                && t@[j].1.won < u32::MAX && t@[j].1.kills < u32::MAX && t@[j].1.kills_won
                < u32::MAX by {
                if j != i {
                    assert(t@[j] == mid[j]);
                } else {
                    assert(mid[j] == mid[i as int]);
                }
            }
        }
    }
}

/// The tallies after one kill, as a function of the state: the killer's
/// side saw `state` and got the kill; the victim's side saw the flipped
/// state and did not.
pub open spec fn after_record(f: spec_fn(KillState) -> Tally, state: KillState, killer_won: bool) -> spec_fn(
    KillState,
) -> Tally {
    let flipped = KillState { diff: -state.diff as i8, adv: -state.adv as i8 };
    |k: KillState|
        if k == flipped {
            bumped(
                if flipped == state {
                    bumped(f(state), killer_won, true)
                } else {
                    f(flipped)
                },
                !killer_won,
                false,
            )
        } else if k == state {
            bumped(f(state), killer_won, true)
        } else {
            f(k)
        }
}

/// One kill: the killer's side saw `state` and got the kill; the victim's
/// side saw the flipped state and did not.
pub fn record(t: &mut Vec<(KillState, Tally)>, state: KillState, killer_won: bool)
    requires
        state.diff > i8::MIN,
        state.adv > i8::MIN,
        has_room(old(t)@, 1),
    ensures
        forall|k: KillState|
            #[trigger] tally_of(final(t)@, k) == after_record(|x: KillState| tally_of(old(t)@, x), state, killer_won)(k),
        forall|m: int|
            #![trigger has_room(old(t)@, m)]
            2 <= m < u32::MAX && has_room(old(t)@, m) ==> has_room(final(t)@, m - 2),
{
    bump(t, state, killer_won, true);
    let f = state.flip();
    bump(t, f, !killer_won, false);
}

// ---------------------------------------------------------------------------
// Each kill's state
// ---------------------------------------------------------------------------

/// The fight counter and whether no tagged kill has been seen yet, before
/// kill `n`: a tagged kill that opens a fight starts the next one, except
/// the very first.
pub open spec fn fight_before(tags: Seq<Option<KillTags>>, n: int) -> (int, bool)
    decreases n,
{
    if n <= 0 {
        (0, true)
    } else {
        let (f, first) = fight_before(tags, n - 1);
        match tags[n - 1] {
            None => (f, first),
            Some(t) => (
                if t.opening && !first {
                    f + 1
                } else {
                    f
                },
                false,
            ),
        }
    }
}

/// `x` held within ±[`MAX_DIFF`].
pub open spec fn clamped(x: int) -> int {
    if x < -MAX_DIFF {
        -MAX_DIFF as int
    } else if x > MAX_DIFF {
        MAX_DIFF as int
    } else {
        x
    }
}

/// Kill `i`'s state and fight, when it is tagged: the killer's colour alive
/// minus the victim's just before it, clamped, and who held the uber
/// advantage then (`advantage`, per kill, as the charge readings say).
pub open spec fn state_spec(
    ks: Seq<KillV>,
    gs: GameState,
    tags: Seq<Option<KillTags>>,
    advantage: Seq<Option<Team>>,
    i: int,
) -> Option<(KillState, int)> {
    match tags[i] {
        None => None,
        Some(t) => {
            let (f, first) = fight_before(tags, i);
            let fight = if t.opening && !first {
                f + 1
            } else {
                f
            };
            let k = ks[i];
            match (k.killer.team, k.victim.team) {
                (Some(kt), Some(vt)) => {
                    let before = k.at - 1;
                    let diff = clamped(alive_n(gs, kt, before) - alive_n(gs, vt, before));
                    let adv: int = match advantage[i] {
                        Some(w) => if w == kt {
                            1
                        } else {
                            -1
                        },
                        None => 0,
                    };
                    Some((KillState { diff: diff as i8, adv: adv as i8 }, fight))
                },
                _ => None,
            }
        },
    }
}

proof fn lemma_fight_bound(tags: Seq<Option<KillTags>>, n: int)
    requires
        0 <= n <= tags.len(),
    ensures
        0 <= fight_before(tags, n).0 <= n,
        fight_before(tags, n).1 ==> fight_before(tags, n).0 == 0,
        !fight_before(tags, n).1 ==> fight_before(tags, n).0 < n,
    decreases n,
{
    if n > 0 {
        lemma_fight_bound(tags, n - 1);
    }
}

fn alive_of(gs: &GameState, team: Team, t: i64) -> (r: usize)
    ensures
        r == alive_n(*gs, team, t as int),
{
    let mut n: usize = 0;
    let mut i: usize = 0;
    while i < gs.lives.len()
        invariant
            i <= gs.lives@.len(),
            n == crate::state::count_alive(gs.lives@, team, t as int, i as int),
            n <= i,
        decreases gs.lives@.len() - i,
    {
        let l = gs.lives[i];
        if l.team == team && l.from <= t && t < l.to {
            n += 1;
        }
        i += 1;
    }
    n
}

/// Which colour held the uber advantage the second before each kill.
pub open spec fn advantage_before(ks: Seq<KillV>, gs: GameState) -> Seq<Option<Team>> {
    Seq::new(
        ks.len(),
        |i: int|
            if ks[i].at > i64::MIN {
                advantage_spec(
                    best_charge(gs.charges@, Team::Red, ks[i].at - 1, gs.charges@.len() as int),
                    best_charge(gs.charges@, Team::Blue, ks[i].at - 1, gs.charges@.len() as int),
                )
            } else {
                None
            },
    )
}

fn advantage_in(raw: &RawLog, gs: &GameState) -> (r: Vec<Option<Team>>)
    ensures
        r@ == advantage_before(kills_of(raw), *gs),
{
    let ghost ks = kills_of(raw);
    let mut out: Vec<Option<Team>> = Vec::new();
    let mut i: usize = 0;
    while i < raw.kills.len()
        invariant
            i <= raw.kills@.len(),
            ks == kills_of(raw),
            out@.len() == i,
            forall|j: int| 0 <= j < i ==> #[trigger] out@[j] == advantage_before(ks, *gs)[j],
        decreases raw.kills@.len() - i,
    {
        let k = &raw.kills[i];
        assert(ks[i as int] == k@);
        let a = if k.at > i64::MIN {
            gs.advantage_at(k.at - 1)
        } else {
            None
        };
        out.push(a);
        i += 1;
    }
    assert(out@ =~= advantage_before(ks, *gs));
    out
}

/// Per kill of the raw log (as far as `tags` goes): its state and the
/// index of the fight it belongs to within the log, for the kills the tags
/// count.
pub fn kill_states(raw: &RawLog, gs: &GameState, tags: &[Option<KillTags>]) -> (r: Vec<Option<(KillState, usize)>>)
    requires
        tags@.len() <= raw.kills@.len(),
        forall|i: int|
            0 <= i < tags@.len() && #[trigger] tags@[i] is Some && raw.kills@[i].killer.team is Some
                && raw.kills@[i].victim.team is Some ==> raw.kills@[i].at > i64::MIN,
    ensures
        r@.len() == tags@.len(),
        forall|i: int|
            0 <= i < tags@.len() ==> match state_spec(
                raw.kills@.map_values(|k: Kill| k@),
                *gs,
                tags@,
                advantage_before(kills_of(raw), *gs),
                i,
            ) {
                Some((s, f)) => #[trigger] r@[i] == Some((s, f as usize)),
                None => r@[i] is None,
            },
{
    let advantage = advantage_in(raw, gs);
    kill_states_with(raw, gs, tags, advantage.as_slice())
}

fn kill_states_with(
    raw: &RawLog,
    gs: &GameState,
    tags: &[Option<KillTags>],
    advantage: &[Option<Team>],
) -> (r: Vec<Option<(KillState, usize)>>)
    requires
        tags@.len() <= raw.kills@.len(),
        advantage@.len() == raw.kills@.len(),
        forall|i: int|
            0 <= i < tags@.len() && #[trigger] tags@[i] is Some && raw.kills@[i].killer.team is Some
                && raw.kills@[i].victim.team is Some ==> raw.kills@[i].at > i64::MIN,
    ensures
        r@.len() == tags@.len(),
        forall|i: int|
            0 <= i < tags@.len() ==> match state_spec(
                raw.kills@.map_values(|k: Kill| k@),
                *gs,
                tags@,
                advantage@,
                i,
            ) {
                Some((s, f)) => #[trigger] r@[i] == Some((s, f as usize)),
                None => r@[i] is None,
            },
{
    let ghost ks = raw.kills@.map_values(|k: Kill| k@);
    let mut out: Vec<Option<(KillState, usize)>> = Vec::new();
    let mut fight: usize = 0;
    let mut first = true;
    let mut i: usize = 0;
    while i < tags.len()
        invariant
            i <= tags@.len() <= raw.kills@.len(),
            advantage@.len() == raw.kills@.len(),
            ks == raw.kills@.map_values(|k: Kill| k@),
            forall|j: int|
                0 <= j < tags@.len() && #[trigger] tags@[j] is Some && raw.kills@[j].killer.team is Some
                    && raw.kills@[j].victim.team is Some ==> raw.kills@[j].at > i64::MIN,
            (fight as int, first) == fight_before(tags@, i as int),
            out@.len() == i,
            forall|j: int|
                0 <= j < i ==> match state_spec(ks, *gs, tags@, advantage@, j) {
                    Some((s, f)) => #[trigger] out@[j] == Some((s, f as usize)),
                    None => out@[j] is None,
                },
        decreases tags@.len() - i,
    {
        proof {
            lemma_fight_bound(tags@, i as int);
        }
        match tags[i] {
            None => {
                out.push(None);
            },
            Some(t) => {
                if t.opening && !first {
                    fight += 1;
                }
                first = false;
                let k = &raw.kills[i];
                assert(ks[i as int] == raw.kills@[i as int]@);
                match (k.killer.team, k.victim.team) {
                    (Some(kt), Some(vt)) => {
                        let ours = alive_of(gs, kt, k.at - 1);
                        let theirs = alive_of(gs, vt, k.at - 1);
                        let diff: i8 = if ours >= theirs {
                            if ours - theirs > 4 {
                                4
                            } else {
                                (ours - theirs) as i8
                            }
                        } else {
                            if theirs - ours > 4 {
                                -4
                            } else {
                                -((theirs - ours) as i8)
                            }
                        };
                        let adv: i8 = match advantage[i] {
                            Some(w) => if w == kt {
                                1
                            } else {
                                -1
                            },
                            None => 0,
                        };
                        out.push(Some((KillState { diff, adv }, fight)));
                    },
                    _ => {
                        out.push(None);
                    },
                }
            },
        }
        i += 1;
    }
    out
}

// ---------------------------------------------------------------------------
// Who won each fight
// ---------------------------------------------------------------------------

pub open spec fn in_fight(st: Seq<Option<(KillState, int)>>, i: int, f: int) -> bool {
    st[i] matches Some((_, g)) && g == f
}

/// Kills in fight `f` among the first `n` made by `team`.
pub open spec fn fight_kills(st: Seq<Option<(KillState, int)>>, ks: Seq<KillV>, f: int, team: Team, n: int) -> nat
    decreases n,
{
    if n <= 0 {
        0
    } else {
        fight_kills(st, ks, f, team, n - 1) + if in_fight(st, n - 1, f) && ks[n - 1].killer.team == Some(team) {
            1nat
        } else {
            0nat
        }
    }
}

/// The latest kill of fight `f` among the first `n`.
pub open spec fn fight_last(st: Seq<Option<(KillState, int)>>, ks: Seq<KillV>, f: int, n: int) -> Option<i64>
    decreases n,
{
    if n <= 0 {
        None
    } else {
        let prev = fight_last(st, ks, f, n - 1);
        if in_fight(st, n - 1, f) {
            Some(
                match prev {
                    Some(p) => if p >= ks[n - 1].at {
                        p
                    } else {
                        ks[n - 1].at
                    },
                    None => ks[n - 1].at,
                },
            )
        } else {
            prev
        }
    }
}

/// The first kill of fight `f` from `j` on.
pub open spec fn fight_first(st: Seq<Option<(KillState, int)>>, f: int, j: int) -> Option<int>
    decreases st.len() - j,
{
    if j < 0 || j >= st.len() {
        None
    } else if in_fight(st, j, f) {
        Some(j)
    } else {
        fight_first(st, f, j + 1)
    }
}

/// The first round, from `j` on, that holds `t`: started by it, and not
/// ended before it.
pub open spec fn round_holding(rounds: Seq<Round>, t: i64, j: int) -> Option<int>
    decreases rounds.len() - j,
{
    if j < 0 || j >= rounds.len() {
        None
    } else if rounds[j].start <= t && (rounds[j].end matches Some(e) ==> t <= e) {
        Some(j)
    } else {
        round_holding(rounds, t, j + 1)
    }
}

/// A cap that can settle a tied fight: after its last kill, by the end of
/// the round, in the same round.
pub open spec fn settles(c: Cap, last: i64, end: Option<i64>, round: u32) -> bool {
    c.at > last && (end matches Some(e) ==> c.at <= e) && c.round == round
}

/// The earliest such cap among the first `n`, the first of equals.
pub open spec fn first_cap(caps: Seq<Cap>, last: i64, end: Option<i64>, round: u32, n: int) -> Option<int>
    decreases n,
{
    if n <= 0 {
        None
    } else {
        let prev = first_cap(caps, last, end, round, n - 1);
        if settles(caps[n - 1], last, end, round) {
            match prev {
                Some(j) => if caps[n - 1].at < caps[j].at {
                    Some(n - 1)
                } else {
                    Some(j)
                },
                None => Some(n - 1),
            }
        } else {
            prev
        }
    }
}

/// Who won fight `f`: more kills, or on a tie the colour of the next cap
/// in its round; nobody when that says nothing.
pub open spec fn fight_winner_spec(st: Seq<Option<(KillState, int)>>, ks: Seq<KillV>, gs: GameState, f: int) -> Option<Team> {
    let n = st.len() as int;
    let red = fight_kills(st, ks, f, Team::Red, n);
    let blue = fight_kills(st, ks, f, Team::Blue, n);
    if red > blue {
        Some(Team::Red)
    } else if red < blue {
        Some(Team::Blue)
    } else {
        match (fight_last(st, ks, f, n), fight_first(st, f, 0)) {
            (Some(last), Some(j0)) => {
                let end = match round_holding(gs.rounds@, last, 0) {
                    Some(j) => gs.rounds@[j].end,
                    None => None,
                };
                match first_cap(gs.caps@, last, end, ks[j0].round, gs.caps@.len() as int) {
                    Some(c) => gs.caps@[c].team,
                    None => None,
                }
            },
            _ => None,
        }
    }
}

/// The winner of the round a time falls in.
pub open spec fn round_winner_spec(gs: GameState, t: i64) -> Option<Team> {
    match round_index(gs.rounds@, t as int, gs.rounds@.len() as int) {
        Some(j) => gs.rounds@[j].winner,
        None => None,
    }
}

fn first_of_fight(states: &Vec<Option<(KillState, usize)>>, f: usize) -> (r: Option<usize>)
    ensures
        match fight_first(st_view(states@), f as int, 0) {
            Some(j) => r == Some(j as usize) && 0 <= j < states@.len(),
            None => r is None,
        },
{
    let ghost st = st_view(states@);
    let mut j: usize = 0;
    while j < states.len()
        invariant
            j <= states@.len(),
            st == st_view(states@),
            fight_first(st, f as int, 0) == fight_first(st, f as int, j as int),
        decreases states@.len() - j,
    {
        let here = match states[j] {
            Some((_, g)) => g == f,
            None => false,
        };
        assert(here == in_fight(st, j as int, f as int));
        if here {
            return Some(j);
        }
        j += 1;
    }
    None
}

fn holding_end(rounds: &Vec<Round>, last: i64) -> (r: Option<i64>)
    ensures
        r == match round_holding(rounds@, last, 0) {
            Some(j) => rounds@[j].end,
            None => None,
        },
{
    let mut j: usize = 0;
    while j < rounds.len()
        invariant
            j <= rounds@.len(),
            round_holding(rounds@, last, 0) == round_holding(rounds@, last, j as int),
        decreases rounds@.len() - j,
    {
        let r = rounds[j];
        let holds = r.start <= last && match r.end {
            Some(e) => last <= e,
            None => true,
        };
        if holds {
            return r.end;
        }
        j += 1;
    }
    None
}

fn fight_winner(states: &Vec<Option<(KillState, usize)>>, kills: &Vec<Kill>, gs: &GameState, f: usize) -> (r: Option<Team>)
    requires
        states@.len() <= kills@.len(),
        states@.len() <= u32::MAX,
    ensures
        r == fight_winner_spec(st_view(states@), kills@.map_values(|k: Kill| k@), *gs, f as int),
{
    let ghost st = st_view(states@);
    let ghost ks = kills@.map_values(|k: Kill| k@);
    let mut red: u32 = 0;
    let mut blue: u32 = 0;
    let mut last: Option<i64> = None;
    let mut i: usize = 0;
    while i < states.len()
        invariant
            i <= states@.len() <= kills@.len(),
            states@.len() <= u32::MAX,
            st == st_view(states@),
            ks == kills@.map_values(|k: Kill| k@),
            red == fight_kills(st, ks, f as int, Team::Red, i as int),
            blue == fight_kills(st, ks, f as int, Team::Blue, i as int),
            red <= i && blue <= i,
            last == fight_last(st, ks, f as int, i as int),
        decreases states@.len() - i,
    {
        assert(ks[i as int] == kills@[i as int]@);
        let here = match states[i] {
            Some((_, g)) => g == f,
            None => false,
        };
        assert(here == in_fight(st, i as int, f as int));
        if here {
            let k = &kills[i];
            match k.killer.team {
                Some(Team::Red) => red += 1,
                Some(Team::Blue) => blue += 1,
                None => {},
            }
            last = Some(
                match last {
                    Some(p) => if p >= k.at {
                        p
                    } else {
                        k.at
                    },
                    None => k.at,
                },
            );
        }
        i += 1;
    }
    if red > blue {
        return Some(Team::Red);
    } else if red < blue {
        return Some(Team::Blue);
    }
    let last = match last {
        Some(l) => l,
        None => return None,
    };
    // The fight's first kill, for its round.
    let j0 = match first_of_fight(states, f) {
        Some(j) => j,
        None => return None,
    };
    assert(ks[j0 as int] == kills@[j0 as int]@);
    let round = kills[j0].round;
    // The round holding the last kill, for its end.
    let end = holding_end(&gs.rounds, last);
    // The earliest cap that settles it.
    let mut best: Option<usize> = None;
    let mut c: usize = 0;
    while c < gs.caps.len()
        invariant
            c <= gs.caps@.len(),
            match first_cap(gs.caps@, last, end, round, c as int) {
                Some(b) => 0 <= b < c && best == Some(b as usize),
                None => best is None,
            },
        decreases gs.caps@.len() - c,
    {
        let cap = &gs.caps[c];
        let ok = cap.at > last && match end {
            Some(e) => cap.at <= e,
            None => true,
        } && cap.round == round;
        assert(ok == settles(gs.caps@[c as int], last, end, round));
        if ok {
            best = match best {
                Some(b) => if cap.at < gs.caps[b].at {
                    Some(c)
                } else {
                    Some(b)
                },
                None => Some(c),
            };
        }
        c += 1;
    }
    match best {
        Some(b) => gs.caps[b].team,
        None => None,
    }
}

pub open spec fn st_view(v: Seq<Option<(KillState, usize)>>) -> Seq<Option<(KillState, int)>> {
    v.map_values(
        |o: Option<(KillState, usize)>|
            match o {
                Some((s, f)) => Some((s, f as int)),
                None => None,
            },
    )
}

// ---------------------------------------------------------------------------
// Adding a log to the tallies
// ---------------------------------------------------------------------------

/// Every kill's state and fight, once the log is analysed.
pub open spec fn states_of(raw: &RawLog, gs: GameState, charged: Seq<bool>, advantage: Seq<Option<Team>>) -> Seq<Option<(KillState, int)>> {
    let tags = tags_of(raw, gs, charged);
    Seq::new(tags.len(), |i: int| state_spec(kills_of(raw), gs, tags, advantage, i))
}

/// The fight tallies after the first `n` kills, from `init`: each kill in
/// a fight somebody won is recorded for both sides.
pub open spec fn fight_tallies(
    init: spec_fn(KillState) -> Tally,
    st: Seq<Option<(KillState, int)>>,
    ks: Seq<KillV>,
    gs: GameState,
    n: int,
) -> spec_fn(KillState) -> Tally
    decreases n,
{
    if n <= 0 {
        init
    } else {
        let prev = fight_tallies(init, st, ks, gs, n - 1);
        match (st[n - 1], ks[n - 1].killer.team) {
            (Some((s, f)), Some(kt)) => match fight_winner_spec(st, ks, gs, f) {
                Some(w) => after_record(prev, s, w == kt),
                None => prev,
            },
            _ => prev,
        }
    }
}

/// The round tallies after the first `n` kills, from `init`: each kill in
/// a round somebody won is recorded for both sides.
pub open spec fn round_tallies(
    init: spec_fn(KillState) -> Tally,
    st: Seq<Option<(KillState, int)>>,
    ks: Seq<KillV>,
    gs: GameState,
    n: int,
) -> spec_fn(KillState) -> Tally
    decreases n,
{
    if n <= 0 {
        init
    } else {
        let prev = round_tallies(init, st, ks, gs, n - 1);
        match (st[n - 1], ks[n - 1].killer.team) {
            (Some((s, _)), Some(kt)) => match round_winner_spec(gs, ks[n - 1].at) {
                Some(w) => after_record(prev, s, w == kt),
                None => prev,
            },
            _ => prev,
        }
    }
}

/// The kills among the first `n` that have a state and a killer's colour.
pub open spec fn kills_made(st: Seq<Option<(KillState, int)>>, ks: Seq<KillV>, n: int) -> nat
    decreases n,
{
    if n <= 0 {
        0
    } else {
        kills_made(st, ks, n - 1) + if st[n - 1] is Some && ks[n - 1].killer.team is Some {
            1nat
        } else {
            0nat
        }
    }
}

proof fn lemma_kills_made_bound(st: Seq<Option<(KillState, int)>>, ks: Seq<KillV>, n: int)
    requires
        0 <= n,
    ensures
        kills_made(st, ks, n) <= n,
    decreases n,
{
    if n > 0 {
        lemma_kills_made_bound(st, ks, n - 1);
    }
}

fn round_winner(gs: &GameState, t: i64) -> (r: Option<Team>)
    ensures
        r == round_winner_spec(*gs, t),
{
    match gs.round_at(t) {
        Some(r) => r.winner,
        None => None,
    }
}

impl Tallies {
    /// Add one log's kills: each kill's state, recorded for both sides
    /// against who won its fight and who won its round.
    pub fn add(&mut self, raw: &RawLog, gs: &GameState)
        requires
            2 * raw.kills@.len() < u32::MAX,
            raw.damage@.len() <= u32::MAX,
            gs.charges@.len() <= u32::MAX,
            gs.rounds@.len() <= u32::MAX,
            times_ok(kills_of(raw)),
            has_room(old(self).fight@, 2 * raw.kills@.len() as int),
            has_room(old(self).round@, 2 * raw.kills@.len() as int),
            old(self).logs < usize::MAX,
            old(self).kills + raw.kills@.len() <= usize::MAX,
        ensures
            final(self).logs == old(self).logs + 1,
            final(self).kills == old(self).kills + kills_made(
                states_of(raw, *gs, charged_spec(kills_of(raw), *gs), advantage_before(kills_of(raw), *gs)),
                kills_of(raw),
                raw.kills@.len() as int,
            ),
            forall|k: KillState|
                #[trigger] tally_of(final(self).fight@, k) == fight_tallies(
                    |x: KillState| tally_of(old(self).fight@, x),
                    states_of(raw, *gs, charged_spec(kills_of(raw), *gs), advantage_before(kills_of(raw), *gs)),
                    kills_of(raw),
                    *gs,
                    raw.kills@.len() as int,
                )(k),
            forall|k: KillState|
                #[trigger] tally_of(final(self).round@, k) == round_tallies(
                    |x: KillState| tally_of(old(self).round@, x),
                    states_of(raw, *gs, charged_spec(kills_of(raw), *gs), advantage_before(kills_of(raw), *gs)),
                    kills_of(raw),
                    *gs,
                    raw.kills@.len() as int,
                )(k),
    {
        let charged = charged_before(raw, gs);
        let advantage = advantage_in(raw, gs);
        self.add_with(raw, gs, charged.as_slice(), advantage.as_slice());
    }

    /// As [`Tallies::add`], with the charge readings given per kill: whether
    /// the victim's colour held a ready charge the second before it, and
    /// which colour held the uber advantage.
    fn add_with(&mut self, raw: &RawLog, gs: &GameState, charged: &[bool], advantage: &[Option<Team>])
        requires
            charged@.len() == raw.kills@.len(),
            advantage@.len() == raw.kills@.len(),
            2 * raw.kills@.len() < u32::MAX,
            raw.damage@.len() <= u32::MAX,
            gs.charges@.len() <= u32::MAX,
            gs.rounds@.len() <= u32::MAX,
            times_ok(kills_of(raw)),
            has_room(old(self).fight@, 2 * raw.kills@.len() as int),
            has_room(old(self).round@, 2 * raw.kills@.len() as int),
            old(self).logs < usize::MAX,
            old(self).kills + raw.kills@.len() <= usize::MAX,
        ensures
            final(self).logs == old(self).logs + 1,
            final(self).kills == old(self).kills + kills_made(
                states_of(raw, *gs, charged@, advantage@),
                kills_of(raw),
                raw.kills@.len() as int,
            ),
            forall|k: KillState|
                #[trigger] tally_of(final(self).fight@, k) == fight_tallies(
                    |x: KillState| tally_of(old(self).fight@, x),
                    states_of(raw, *gs, charged@, advantage@),
                    kills_of(raw),
                    *gs,
                    raw.kills@.len() as int,
                )(k),
            forall|k: KillState|
                #[trigger] tally_of(final(self).round@, k) == round_tallies(
                    |x: KillState| tally_of(old(self).round@, x),
                    states_of(raw, *gs, charged@, advantage@),
                    kills_of(raw),
                    *gs,
                    raw.kills@.len() as int,
                )(k),
    {
        let ghost ks = kills_of(raw);
        let ghost n = raw.kills@.len() as int;
        let ghost init_f = |x: KillState| tally_of(old(self).fight@, x);
        let ghost init_r = |x: KillState| tally_of(old(self).round@, x);
        let fights = analyse_with(raw, gs, charged);
        let ghost tags = fights.tags@;
        assert(tags == tags_of(raw, *gs, charged@));
        assert forall|i: int|
            0 <= i < tags.len() && #[trigger] tags[i] is Some && raw.kills@[i].killer.team is Some
                && raw.kills@[i].victim.team is Some implies raw.kills@[i].at > i64::MIN by {
            assert(counted(ks, i));
            assert(eligible(ks[i]));
            assert(ks[i] == raw.kills@[i]@);
        }
        let states = kill_states_with(raw, gs, fights.tags.as_slice(), advantage);
        let ghost st = st_view(states@);
        assert(st =~= states_of(raw, *gs, charged@, advantage@)) by {
            assert forall|i: int| 0 <= i < st.len() implies #[trigger] st[i] == states_of(raw, *gs, charged@, advantage@)[i] by {
                assert(raw.kills@.map_values(|k: Kill| k@) == ks);
                match state_spec(ks, *gs, tags, advantage@, i) {
                    Some((s, f)) => {
                        assert(states@[i] == Some((s, f as usize)));
                        assert(0 <= f <= i) by {
                            lemma_fight_bound(tags, i);
                        }
                    },
                    None => {},
                }
            }
        }
        self.logs = self.logs + 1;
        let mut i: usize = 0;
        while i < states.len()
            invariant
                i <= states@.len() == raw.kills@.len(),
                n == raw.kills@.len(),
                2 * n < u32::MAX,
                ks == kills_of(raw),
                st == st_view(states@),
                st == states_of(raw, *gs, charged@, advantage@),
                forall|j: int| 0 <= j < st.len() ==> (#[trigger] st[j] matches Some((s, _)) ==> -4 <= s.diff <= 4 && -1 <= s.adv <= 1),
                self.kills == old(self).kills + kills_made(st, ks, i as int),
                old(self).kills + n <= usize::MAX,
                forall|k: KillState| #[trigger] tally_of(self.fight@, k) == fight_tallies(init_f, st, ks, *gs, i as int)(k),
                forall|k: KillState| #[trigger] tally_of(self.round@, k) == round_tallies(init_r, st, ks, *gs, i as int)(k),
                has_room(self.fight@, 2 * (n - i)),
                has_room(self.round@, 2 * (n - i)),
                self.logs == old(self).logs + 1,
            decreases states@.len() - i,
        {
            proof {
                lemma_kills_made_bound(st, ks, i as int);
            }
            assert(ks[i as int] == raw.kills@[i as int]@);
            let k = &raw.kills[i];
            if let Some((s, f)) = states[i] {
                assert(st[i as int] == Some((s, f as int)));
                if let Some(kt) = k.killer.team {
                    self.kills = self.kills + 1;
                    let ghost before_f = self.fight@;
                    let ghost before_r = self.round@;
                    let fw = fight_winner(&states, &raw.kills, gs, f);
                    if let Some(w) = fw {
                        record(&mut self.fight, s, w == kt);
                        assert((|x: KillState| tally_of(before_f, x)) =~= fight_tallies(init_f, st, ks, *gs, i as int));
                    }
                    let rw = round_winner(gs, k.at);
                    if let Some(w) = rw {
                        record(&mut self.round, s, w == kt);
                        assert((|x: KillState| tally_of(before_r, x)) =~= round_tallies(init_r, st, ks, *gs, i as int));
                    }
                    assert(has_room(self.fight@, 2 * (n - (i + 1))));
                    assert(has_room(self.round@, 2 * (n - (i + 1))));
                }
            }
            i += 1;
        }
    }
}

/// The kinds of map a Highlander season is played on.
#[derive(Debug, Clone, Copy, PartialEq, Eq, Structural, Hash)]
pub enum Mode {
    Koth,
    Stopwatch,
    Other,
}

pub open spec fn mode_of(map: Seq<char>) -> Mode {
    let m = lower_s(map);
    if starts_with(m, "koth_"@) {
        Mode::Koth
    } else if starts_with(m, "pl_"@) || starts_with(m, "cp_steel"@) || starts_with(
        m,
        "cp_gravelpit"@,
    ) {
        Mode::Stopwatch
    } else {
        Mode::Other
    }
}

pub open spec fn mode_text(m: Mode) -> Seq<char> {
    match m {
        Mode::Koth => "koth"@,
        Mode::Stopwatch => "stopwatch"@,
        Mode::Other => "other"@,
    }
}

fn begins(m: &[char], p: &str) -> (b: bool)
    ensures
        b == starts_with(m@, p@),
{
    let pc = chars_of(p);
    has_prefix(m, pc.as_slice())
}

impl Mode {
    /// The kind of game a map is: KOTH, stopwatch (payload and the two
    /// attack/defend control-point maps), or anything else.
    pub fn of(map: &str) -> (r: Mode)
        ensures
            r == mode_of(map@),
    {
        let cs = chars_of(map);
        let m = lowered(cs.as_slice());
        let m = m.as_slice();
        if begins(m, "koth_") {
            Mode::Koth
        } else if begins(m, "pl_") || begins(m, "cp_steel") || begins(m, "cp_gravelpit") {
            Mode::Stopwatch
        } else {
            Mode::Other
        }
    }

    pub fn as_str(self) -> (r: &'static str)
        ensures
            r@ == mode_text(self),
    {
        match self {
            Mode::Koth => "koth",
            Mode::Stopwatch => "stopwatch",
            Mode::Other => "other",
        }
    }
}

} // verus!
