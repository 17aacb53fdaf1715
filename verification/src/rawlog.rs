//! The raw server log behind a logs.tf page: every kill, with time, both
//! players' classes and teams, and where each of them stood.
//!
//! Only kills inside a round (between `Round_Start` and `Round_Win`,
//! `Round_Stalemate` or `Game_Over`) count, and a Dead Ringer feign death is
//! not a kill. The victim's class is not on the kill line; it is tracked from
//! each player's latest `spawned as` / `changed role to`.
//!
//! Raw timestamps are the game server's local time read as if UTC;
//! [`frame_offset`] finds the whole number of hours between them and
//! logs.tf's round times.
use crate::cli::{civil_days, days_from_civil};
use crate::matchdata::{team_named, Team};
use crate::text::{
    all_digits, digits_val, ends_with, find, find_at, find_from, is_at, lemma_find_from_bounds, parse_i64,
    parse_i64_of, parse_u32, parse_u32_of, rfind, rfind_in, slice_of, starts_with,
};
use crate::tfclass::TfClass;
use std::collections::HashMap;
use vstd::prelude::*;

verus! {

broadcast use vstd::std_specs::hash::group_hash_axioms;

/// One hit.
#[derive(Debug, Clone, Copy, PartialEq, Eq)]
pub struct Damage {
    pub at: i64,
    pub live: bool,
    pub attacker: Actor,
    pub victim: Actor,
    /// As logged. A backstab logs six times the victim's health.
    pub amount: i64,
}

/// logs.tf counts at most this much from a single hit.
pub const HIT_CAP: i64 = 450;

/// Uploads from this time on (unix seconds) had their hits capped by logs.tf.
pub const HIT_CAP_SINCE: i64 = 1_443_600_000;

/// Whether logs.tf capped hits for a log uploaded at `uploaded`: an unknown
/// upload time counts as capped.
pub fn hits_capped(uploaded: Option<i64>) -> (r: bool)
    ensures
        r == (uploaded matches Some(t) ==> t >= HIT_CAP_SINCE),
{
    match uploaded {
        None => true,
        Some(t) => t >= HIT_CAP_SINCE,
    }
}

impl Damage {
    /// The damage logs.tf counts: nothing outside a round, and at most
    /// [`HIT_CAP`] a hit where it capped.
    pub fn counted(&self, capped: bool) -> (r: i64)
        ensures
            !self.live ==> r == 0,
            self.live && capped ==> r == (if self.amount < HIT_CAP {
                self.amount
            } else {
                HIT_CAP
            }),
            self.live && !capped ==> r == self.amount,
    {
        if !self.live {
            0
        } else if capped {
            if self.amount < HIT_CAP {
                self.amount
            } else {
                HIT_CAP
            }
        } else {
            self.amount
        }
    }
}

#[derive(Debug, Clone, Copy, PartialEq, Eq)]
pub struct Actor {
    pub account: u32,
    /// The colour at that moment; stopwatch swaps it between halves.
    pub team: Option<Team>,
    pub class: Option<TfClass>,
}

#[derive(Debug, Clone, PartialEq)]
pub struct Kill {
    /// The server's local clock read as if UTC, until [`RawLog::shift`]
    /// moves it into another clock.
    pub at: i64,
    /// 0 before the first round.
    pub round: u32,
    /// Inside a round, where logs.tf counts it.
    pub live: bool,
    pub killer: Actor,
    pub victim: Actor,
    pub weapon: String,
    pub custom: Option<String>,
    pub assister: Option<u32>,
    pub killer_pos: Option<[i32; 3]>,
    pub victim_pos: Option<[i32; 3]>,
}

/// A kill as values.
pub struct KillV {
    pub at: i64,
    pub round: u32,
    pub live: bool,
    pub killer: Actor,
    pub victim: Actor,
    pub weapon: Seq<char>,
    pub custom: Option<Seq<char>>,
    pub assister: Option<u32>,
    pub killer_pos: Option<Seq<i32>>,
    pub victim_pos: Option<Seq<i32>>,
}

pub open spec fn opt_text(o: Option<String>) -> Option<Seq<char>> {
    match o {
        Some(s) => Some(s@),
        None => None,
    }
}

pub open spec fn opt_pos(o: Option<[i32; 3]>) -> Option<Seq<i32>> {
    match o {
        Some(p) => Some(p@),
        None => None,
    }
}

impl View for Kill {
    type V = KillV;

    open spec fn view(&self) -> KillV {
        KillV {
            at: self.at,
            round: self.round,
            live: self.live,
            killer: self.killer,
            victim: self.victim,
            weapon: self.weapon@,
            custom: opt_text(self.custom),
            assister: self.assister,
            killer_pos: opt_pos(self.killer_pos),
            victim_pos: opt_pos(self.victim_pos),
        }
    }
}

pub open spec fn kill_counts(k: KillV) -> bool {
    k.live && k.custom != Some("feign_death"@)
}

impl Kill {
    /// What logs.tf counts as a kill: inside a round, and not a Dead Ringer
    /// feign (the victim did not actually die).
    pub fn counts(&self) -> (r: bool)
        ensures
            r == kill_counts(self@),
    {
        if !self.live {
            return false;
        }
        match &self.custom {
            None => true,
            Some(c) => {
                let cs = crate::text::chars_of(c.as_str());
                let f = crate::text::chars_of("feign_death");
                !crate::text::same(cs.as_slice(), f.as_slice())
            },
        }
    }

    /// Whether logs.tf credits this kill's assist: feign deaths included, so
    /// only "inside a round, with an assister".
    pub fn assist_counts(&self) -> (r: bool)
        ensures
            r == (self.live && self.assister is Some),
    {
        self.live && self.assister.is_some()
    }
}

#[derive(Debug, Clone, PartialEq)]
pub struct Chat {
    pub at: i64,
    /// `None` for the server console.
    pub account: Option<u32>,
    pub team_chat: bool,
    pub message: String,
}

pub struct ChatV {
    pub at: i64,
    pub account: Option<u32>,
    pub team_chat: bool,
    pub message: Seq<char>,
}

impl View for Chat {
    type V = ChatV;

    open spec fn view(&self) -> ChatV {
        ChatV { at: self.at, account: self.account, team_chat: self.team_chat, message: self.message@ }
    }
}

#[derive(Debug, Clone, Default)]
pub struct RawLog {
    pub kills: Vec<Kill>,
    pub chat: Vec<Chat>,
    /// Rounds started.
    pub rounds: u32,
    /// Every `Round_Start`, in the raw log's clock.
    pub round_starts: Vec<i64>,
    /// Every damage line, one per hit.
    pub damage: Vec<Damage>,
    /// `World triggered "meta_data" (map "...")`: the map loaded at a time.
    pub map_loads: Vec<(i64, String)>,
}

pub struct RawLogV {
    pub kills: Seq<KillV>,
    pub chat: Seq<ChatV>,
    pub rounds: u32,
    pub round_starts: Seq<i64>,
    pub damage: Seq<Damage>,
    pub map_loads: Seq<(i64, Seq<char>)>,
}

impl View for RawLog {
    type V = RawLogV;

    open spec fn view(&self) -> RawLogV {
        RawLogV {
            kills: self.kills@.map_values(|k: Kill| k@),
            chat: self.chat@.map_values(|c: Chat| c@),
            rounds: self.rounds,
            round_starts: self.round_starts@,
            damage: self.damage@,
            map_loads: self.map_loads@.map_values(|m: (i64, String)| (m.0, m.1@)),
        }
    }
}

pub open spec fn fits(t: int) -> bool {
    i64::MIN <= t <= i64::MAX
}

/// Every time of the log stays an `i64` when moved by `shift`.
pub open spec fn shift_fits(r: RawLogV, shift: int) -> bool {
    &&& forall|i: int| 0 <= i < r.kills.len() ==> fits(#[trigger] r.kills[i].at + shift)
    &&& forall|i: int| 0 <= i < r.chat.len() ==> fits(#[trigger] r.chat[i].at + shift)
    &&& forall|i: int| 0 <= i < r.round_starts.len() ==> fits(#[trigger] r.round_starts[i] + shift)
    &&& forall|i: int| 0 <= i < r.damage.len() ==> fits(#[trigger] r.damage[i].at + shift)
    &&& forall|i: int| 0 <= i < r.map_loads.len() ==> fits(#[trigger] r.map_loads[i].0 + shift)
}

/// The log moved into another clock: every time plus `shift`, all else kept.
pub open spec fn shifted(r: RawLogV, shift: int) -> RawLogV {
    RawLogV {
        kills: Seq::new(
            r.kills.len(),
            |i: int| KillV { at: (r.kills[i].at + shift) as i64, ..r.kills[i] },
        ),
        chat: Seq::new(r.chat.len(), |i: int| ChatV { at: (r.chat[i].at + shift) as i64, ..r.chat[i] }),
        rounds: r.rounds,
        round_starts: Seq::new(r.round_starts.len(), |i: int| (r.round_starts[i] + shift) as i64),
        damage: Seq::new(
            r.damage.len(),
            |i: int| Damage { at: (r.damage[i].at + shift) as i64, ..r.damage[i] },
        ),
        map_loads: Seq::new(
            r.map_loads.len(),
            |i: int| ((r.map_loads[i].0 + shift) as i64, r.map_loads[i].1),
        ),
    }
}

/// Moving a log into another clock and back leaves it as it was.
pub proof fn lemma_shift_undone(r: RawLogV, shift: int)
    requires
        shift_fits(r, shift),
    ensures
        shift_fits(shifted(r, shift), -shift),
        shifted(shifted(r, shift), -shift) == r,
{
    let s = shifted(r, shift);
    let b = shifted(s, -shift);
    assert(b.kills =~= r.kills) by {
        assert forall|i: int| 0 <= i < r.kills.len() implies b.kills[i] == r.kills[i] by {
            assert(s.kills[i].at == r.kills[i].at + shift);
        }
    }
    assert(b.chat =~= r.chat) by {
        assert forall|i: int| 0 <= i < r.chat.len() implies b.chat[i] == r.chat[i] by {
            assert(s.chat[i].at == r.chat[i].at + shift);
        }
    }
    assert(b.round_starts =~= r.round_starts);
    assert(b.damage =~= r.damage) by {
        assert forall|i: int| 0 <= i < r.damage.len() implies b.damage[i] == r.damage[i] by {
            assert(s.damage[i].at == r.damage[i].at + shift);
        }
    }
    assert(b.map_loads =~= r.map_loads);
}

/// Two moves are one: moving a log by `a` and then by `b` moves it by
/// `a + b`.
pub proof fn lemma_shifts_add(r: RawLogV, a: int, b: int)
    requires
        shift_fits(r, a),
        shift_fits(shifted(r, a), b),
    ensures
        shift_fits(r, a + b),
        shifted(shifted(r, a), b) == shifted(r, a + b),
{
    let s = shifted(r, a);
    let t = shifted(s, b);
    let u = shifted(r, a + b);
    assert forall|i: int| 0 <= i < r.kills.len() implies fits(#[trigger] r.kills[i].at + (a + b)) by {
        assert(s.kills[i].at == r.kills[i].at + a);
        assert(fits(s.kills[i].at + b));
    }
    assert forall|i: int| 0 <= i < r.chat.len() implies fits(#[trigger] r.chat[i].at + (a + b)) by {
        assert(s.chat[i].at == r.chat[i].at + a);
        assert(fits(s.chat[i].at + b));
    }
    assert forall|i: int| 0 <= i < r.round_starts.len() implies fits(#[trigger] r.round_starts[i] + (a + b)) by {
        assert(s.round_starts[i] == r.round_starts[i] + a);
        assert(fits(s.round_starts[i] + b));
    }
    assert forall|i: int| 0 <= i < r.damage.len() implies fits(#[trigger] r.damage[i].at + (a + b)) by {
        assert(s.damage[i].at == r.damage[i].at + a);
        assert(fits(s.damage[i].at + b));
    }
    assert forall|i: int| 0 <= i < r.map_loads.len() implies fits(#[trigger] r.map_loads[i].0 + (a + b)) by {
        assert(s.map_loads[i].0 == r.map_loads[i].0 + a);
        assert(fits(s.map_loads[i].0 + b));
    }
    assert(t.kills =~= u.kills) by {
        assert forall|i: int| 0 <= i < r.kills.len() implies t.kills[i] == u.kills[i] by {
            assert(s.kills[i].at == r.kills[i].at + a);
        }
    }
    assert(t.chat =~= u.chat) by {
        assert forall|i: int| 0 <= i < r.chat.len() implies t.chat[i] == u.chat[i] by {
            assert(s.chat[i].at == r.chat[i].at + a);
        }
    }
    assert(t.round_starts =~= u.round_starts);
    assert(t.damage =~= u.damage) by {
        assert forall|i: int| 0 <= i < r.damage.len() implies t.damage[i] == u.damage[i] by {
            assert(s.damage[i].at == r.damage[i].at + a);
        }
    }
    assert(t.map_loads =~= u.map_loads);
}

impl RawLog {
    /// Move every time by `shift` seconds, into another clock.
    pub fn shift(&mut self, shift: i64)
        requires
            shift_fits(old(self)@, shift as int),
        ensures
            final(self)@ == shifted(old(self)@, shift as int),
    {
        let ghost before = self@;
        let ghost want = shifted(before, shift as int);
        let mut i: usize = 0;
        while i < self.kills.len()
            invariant
                i <= self.kills@.len() == before.kills.len(),
                shift_fits(before, shift as int),
                want == shifted(before, shift as int),
                self@.chat == before.chat,
                self@.round_starts == before.round_starts,
                self@.damage == before.damage,
                self@.map_loads == before.map_loads,
                self.rounds == before.rounds,
                forall|j: int| 0 <= j < i ==> #[trigger] self.kills@[j]@ == want.kills[j],
                forall|j: int| i <= j < self.kills@.len() ==> #[trigger] self.kills@[j]@ == before.kills[j],
            decreases before.kills.len() - i,
        {
            assert(self.kills@[i as int]@ == before.kills[i as int]);
            assert(fits(before.kills[i as int].at + shift));
            self.kills[i].at = self.kills[i].at + shift;
            i += 1;
        }
        assert(self@.kills =~= want.kills);
        let mut i: usize = 0;
        while i < self.chat.len()
            invariant
                i <= self.chat@.len() == before.chat.len(),
                shift_fits(before, shift as int),
                want == shifted(before, shift as int),
                self@.kills == want.kills,
                self@.round_starts == before.round_starts,
                self@.damage == before.damage,
                self@.map_loads == before.map_loads,
                self.rounds == before.rounds,
                forall|j: int| 0 <= j < i ==> #[trigger] self.chat@[j]@ == want.chat[j],
                forall|j: int| i <= j < self.chat@.len() ==> #[trigger] self.chat@[j]@ == before.chat[j],
            decreases before.chat.len() - i,
        {
            assert(self.chat@[i as int]@ == before.chat[i as int]);
            assert(fits(before.chat[i as int].at + shift));
            self.chat[i].at = self.chat[i].at + shift;
            i += 1;
        }
        assert(self@.chat =~= want.chat);
        let mut i: usize = 0;
        while i < self.round_starts.len()
            invariant
                i <= self.round_starts@.len() == before.round_starts.len(),
                shift_fits(before, shift as int),
                want == shifted(before, shift as int),
                self@.kills == want.kills,
                self@.chat == want.chat,
                self@.damage == before.damage,
                self@.map_loads == before.map_loads,
                self.rounds == before.rounds,
                forall|j: int| 0 <= j < i ==> #[trigger] self.round_starts@[j] == want.round_starts[j],
                forall|j: int|
                    i <= j < self.round_starts@.len() ==> #[trigger] self.round_starts@[j]
                        == before.round_starts[j],
            decreases before.round_starts.len() - i,
        {
            assert(fits(before.round_starts[i as int] + shift));
            let t = self.round_starts[i] + shift;
            self.round_starts.set(i, t);
            i += 1;
        }
        assert(self@.round_starts =~= want.round_starts);
        let mut i: usize = 0;
        while i < self.damage.len()
            invariant
                i <= self.damage@.len() == before.damage.len(),
                shift_fits(before, shift as int),
                want == shifted(before, shift as int),
                self@.kills == want.kills,
                self@.chat == want.chat,
                self@.round_starts == want.round_starts,
                self@.map_loads == before.map_loads,
                self.rounds == before.rounds,
                forall|j: int| 0 <= j < i ==> #[trigger] self.damage@[j] == want.damage[j],
                forall|j: int| i <= j < self.damage@.len() ==> #[trigger] self.damage@[j] == before.damage[j],
            decreases before.damage.len() - i,
        {
            assert(fits(before.damage[i as int].at + shift));
            let mut d = self.damage[i];
            d.at = d.at + shift;
            self.damage.set(i, d);
            i += 1;
        }
        assert(self@.damage =~= want.damage);
        let mut i: usize = 0;
        while i < self.map_loads.len()
            invariant
                i <= self.map_loads@.len() == before.map_loads.len(),
                shift_fits(before, shift as int),
                want == shifted(before, shift as int),
                self@.kills == want.kills,
                self@.chat == want.chat,
                self@.round_starts == want.round_starts,
                self@.damage == want.damage,
                self.rounds == before.rounds,
                forall|j: int|
                    0 <= j < i ==> (#[trigger] self.map_loads@[j]).0 == want.map_loads[j].0
                        && self.map_loads@[j].1@ == want.map_loads[j].1,
                forall|j: int|
                    i <= j < self.map_loads@.len() ==> (#[trigger] self.map_loads@[j]).0
                        == before.map_loads[j].0 && self.map_loads@[j].1@ == before.map_loads[j].1,
            decreases before.map_loads.len() - i,
        {
            assert(fits(before.map_loads[i as int].0 + shift));
            self.map_loads[i].0 = self.map_loads[i].0 + shift;
            i += 1;
        }
        assert(self@.map_loads =~= want.map_loads);
    }
}

pub open spec fn has_start(raw: Seq<i64>, t: int) -> bool {
    exists|i: int| 0 <= i < raw.len() && raw[i] == t
}

/// How many of logs.tf's round starts land exactly on a raw `Round_Start`
/// once the raw clock is moved by `shift`.
pub open spec fn landed(raw: Seq<i64>, logstf: Seq<i64>, shift: int) -> nat
    decreases logstf.len(),
{
    if logstf.len() == 0 {
        0
    } else {
        landed(raw, logstf.drop_last(), shift) + if has_start(raw, logstf.last() - shift) {
            1nat
        } else {
            0nat
        }
    }
}

pub open spec fn abs(x: int) -> int {
    if x < 0 {
        -x
    } else {
        x
    }
}

/// The shift of `h` hours back.
pub open spec fn hour(h: int) -> int {
    -h * 3600
}

/// The shifts tried: whole hours from -14 to 14.
pub open spec fn hour_shift(s: int) -> bool {
    exists|h: int| -14 <= h <= 14 && s == #[trigger] hour(h)
}

/// `s` is at least as good a shift as `t`: more round starts land, or as
/// many under a smaller shift, or the same size and `s` the negative one.
pub open spec fn no_worse(raw: Seq<i64>, logstf: Seq<i64>, s: int, t: int) -> bool {
    let (ns, nt) = (landed(raw, logstf, s), landed(raw, logstf, t));
    ns > nt || (ns == nt && (abs(s) < abs(t) || (abs(s) == abs(t) && s <= t)))
}

fn has(raw: &[i64], t: i64) -> (b: bool)
    ensures
        b == has_start(raw@, t as int),
{
    let mut i: usize = 0;
    while i < raw.len()
        invariant
            i <= raw@.len(),
            forall|j: int| 0 <= j < i ==> raw@[j] != t,
        decreases raw@.len() - i,
    {
        if raw[i] == t {
            return true;
        }
        i += 1;
    }
    false
}

fn count_landed(raw: &[i64], logstf: &[i64], shift: i64) -> (n: usize)
    requires
        -50_400 <= shift <= 50_400,
        forall|i: int| 0 <= i < logstf@.len() ==> fits(#[trigger] logstf@[i] - shift),
    ensures
        n == landed(raw@, logstf@, shift as int),
{
    let mut n: usize = 0;
    let mut i: usize = 0;
    while i < logstf.len()
        invariant
            i <= logstf@.len(),
            n <= i,
            forall|i: int| 0 <= i < logstf@.len() ==> fits(#[trigger] logstf@[i] - shift),
            n == landed(raw@, logstf@.take(i as int), shift as int),
        decreases logstf@.len() - i,
    {
        assert(logstf@.take(i + 1).drop_last() =~= logstf@.take(i as int));
        assert(fits(logstf@[i as int] - shift));
        if has(raw, logstf[i] - shift) {
            n += 1;
        }
        i += 1;
    }
    assert(logstf@.take(logstf@.len() as int) =~= logstf@);
    n
}

/// The shift that turns raw-log times into logs.tf's round-time frame: the
/// whole number of hours under which the most logs.tf round starts land on a
/// raw `Round_Start` (on a tie, the smaller shift, and of two the same size
/// the negative one). `None` when no hour fits any round.
pub fn frame_offset(raw_round_starts: &[i64], logstf_round_starts: &[i64]) -> (r: Option<i64>)
    requires
        forall|i: int|
            0 <= i < logstf_round_starts@.len() ==> i64::MIN + 50_400 <= #[trigger] logstf_round_starts@[i]
                <= i64::MAX - 50_400,
    ensures
        r is None <==> forall|h: int|
            -14 <= h <= 14 ==> landed(raw_round_starts@, logstf_round_starts@, hour(h)) == 0,
        r matches Some(s) ==> {
            &&& hour_shift(s as int)
            &&& landed(raw_round_starts@, logstf_round_starts@, s as int) > 0
            &&& forall|h: int|
                -14 <= h <= 14 ==> no_worse(raw_round_starts@, logstf_round_starts@, s as int, hour(h))
        },
{
    let ghost raw = raw_round_starts@;
    let ghost ls = logstf_round_starts@;
    let mut best: Option<(usize, i64)> = None;
    let mut h: i64 = -14;
    while h <= 14
        invariant
            -14 <= h <= 15,
            raw == raw_round_starts@,
            ls == logstf_round_starts@,
            forall|i: int|
                0 <= i < ls.len() ==> i64::MIN + 50_400 <= #[trigger] ls[i] <= i64::MAX - 50_400,
            best is None ==> forall|g: int| -14 <= g < h ==> landed(raw, ls, hour(g)) == 0,
            best matches Some((n, s)) ==> {
                &&& n == landed(raw, ls, s as int)
                &&& n > 0
                &&& exists|g: int| -14 <= g < h && s == #[trigger] hour(g)
                &&& forall|g: int| -14 <= g < h ==> no_worse(raw, ls, s as int, #[trigger] hour(g))
            },
        decreases 15 - h,
    {
        let shift = -h * 3600;
        assert forall|i: int| 0 <= i < ls.len() implies fits(#[trigger] ls[i] - shift) by {
            assert(i64::MIN + 50_400 <= ls[i] <= i64::MAX - 50_400);
        }
        let n = count_landed(raw_round_starts, logstf_round_starts, shift);
        let abs_shift: i64 = if shift < 0 {
            -shift
        } else {
            shift
        };
        if n > 0 {
            let take = match best {
                None => true,
                Some((bn, bs)) => {
                    let abs_best: i64 = if bs < 0 {
                        -bs
                    } else {
                        bs
                    };
                    n > bn || (n == bn && abs_shift <= abs_best)
                },
            };
            if take {
                best = Some((n, shift));
                assert(hour(h as int) == shift);
            }
        }
        h += 1;
    }
    match best {
        None => None,
        Some((_, s)) => Some(s),
    }
}

// ---------------------------------------------------------------------------
// Byte offsets
// ---------------------------------------------------------------------------

/// The length of a character in UTF-8.
pub open spec fn utf8_len(c: char) -> int {
    if (c as u32) < 0x80 {
        1
    } else if (c as u32) < 0x800 {
        2
    } else if (c as u32) < 0x10000 {
        3
    } else {
        4
    }
}

/// The length of a text in UTF-8.
pub open spec fn byte_len(s: Seq<char>) -> int
    decreases s.len(),
{
    if s.len() == 0 {
        0
    } else {
        byte_len(s.drop_last()) + utf8_len(s.last())
    }
}

/// The character that starts at byte `n` of `s` (or `s.len()` when the text
/// ends there); `None` when byte `n` is inside a character or past the end.
pub open spec fn char_at_byte(s: Seq<char>, n: int) -> Option<int> {
    if exists|i: int| 0 <= i <= s.len() && #[trigger] byte_len(s.take(i)) == n {
        Some(choose|i: int| 0 <= i <= s.len() && #[trigger] byte_len(s.take(i)) == n)
    } else {
        None
    }
}

pub proof fn lemma_byte_len_step(s: Seq<char>, i: int)
    requires
        0 <= i < s.len(),
    ensures
        byte_len(s.take(i + 1)) == byte_len(s.take(i)) + utf8_len(s[i]),
{
    assert(s.take(i + 1).drop_last() =~= s.take(i));
}

/// Each character takes at least one byte, so byte offsets grow strictly.
proof fn lemma_byte_len_grows(s: Seq<char>, i: int, j: int)
    requires
        0 <= i <= j <= s.len(),
    ensures
        byte_len(s.take(j)) - byte_len(s.take(i)) >= j - i,
        byte_len(s.take(i)) >= 0,
    decreases j - i,
{
    if i < j {
        lemma_byte_len_grows(s, i, j - 1);
        lemma_byte_len_step(s, j - 1);
    } else {
        lemma_byte_len_nonneg(s.take(i));
    }
}

proof fn lemma_byte_len_nonneg(s: Seq<char>)
    ensures
        byte_len(s) >= 0,
    decreases s.len(),
{
    if s.len() > 0 {
        lemma_byte_len_nonneg(s.drop_last());
    }
}

pub fn utf8_width(c: char) -> (w: usize)
    ensures
        w == utf8_len(c),
{
    let u = c as u32;
    if u < 0x80 {
        1
    } else if u < 0x800 {
        2
    } else if u < 0x10000 {
        3
    } else {
        4
    }
}

/// [`char_at_byte`], for small offsets.
fn at_byte(s: &[char], n: usize) -> (r: Option<usize>)
    requires
        n <= 64,
    ensures
        r matches Some(i) ==> char_at_byte(s@, n as int) == Some(i as int),
        r matches Some(i) ==> i <= s@.len() && byte_len(s@.take(i as int)) == n,
        r is None ==> char_at_byte(s@, n as int) is None,
{
    let mut i: usize = 0;
    let mut b: usize = 0;
    assert(s@.take(0) =~= Seq::<char>::empty());
    while i < s.len() && b < n
        invariant
            i <= s@.len(),
            n <= 64,
            b == byte_len(s@.take(i as int)),
            b < n + 4,
            forall|j: int| 0 <= j < i ==> #[trigger] byte_len(s@.take(j)) < n,
        decreases s@.len() - i,
    {
        proof {
            lemma_byte_len_step(s@, i as int);
        }
        b = b + utf8_width(s[i]);
        i += 1;
    }
    if b == n {
        proof {
            assert forall|j: int| 0 <= j <= s@.len() && #[trigger] byte_len(s@.take(j)) == n implies j == i by {
                if j < i {
                } else if j > i {
                    lemma_byte_len_grows(s@, i as int, j);
                }
            }
        }
        Some(i)
    } else {
        proof {
            assert forall|j: int| 0 <= j <= s@.len() implies #[trigger] byte_len(s@.take(j)) != n by {
                if j > i {
                    lemma_byte_len_grows(s@, i as int, j);
                }
            }
        }
        None
    }
}

// ---------------------------------------------------------------------------
// Timestamps
// ---------------------------------------------------------------------------

/// Byte `n` of `s` is the ASCII character `c`.
pub open spec fn byte_is(s: Seq<char>, n: int, c: char) -> bool {
    char_at_byte(s, n) matches Some(i) && i < s.len() && s[i] == c
}

/// The number written in bytes `a..b` of `s`, as `str::get` then
/// `str::parse::<i64>` read it.
pub open spec fn field(s: Seq<char>, a: int, b: int) -> Option<int> {
    match (char_at_byte(s, a), char_at_byte(s, b)) {
        (Some(i), Some(j)) => if i <= j {
            parse_i64(s.subrange(i, j))
        } else {
            None
        },
        _ => None,
    }
}

/// `L 09/15/2026 - 19:45:09: body`: the time, as seconds with the server's
/// clock read as UTC, and where the body starts. The date and time sit at
/// fixed byte offsets after `L `; the body starts at byte 23 after it.
pub open spec fn split_time_spec(line: Seq<char>) -> Option<(int, int)> {
    if !starts_with(line, "L "@) {
        None
    } else {
        let rest = line.skip(2);
        match (char_at_byte(rest, 22), char_at_byte(rest, 23), stamp_spec(rest)) {
            (Some(_), Some(b), Some(t)) => Some((t, b + 2)),
            _ => None,
        }
    }
}

/// The time written in the first 22 bytes of `rest`: `MM/DD/YYYY - hh:mm:ss:`.
pub open spec fn stamp_spec(rest: Seq<char>) -> Option<int> {
    if byte_is(rest, 2, '/') && byte_is(rest, 5, '/') && byte_is(rest, 21, ':') {
        match (
            field(rest, 0, 2),
            field(rest, 3, 5),
            field(rest, 6, 10),
            field(rest, 13, 15),
            field(rest, 16, 18),
            field(rest, 19, 21),
        ) {
            (Some(mo), Some(d), Some(y), Some(h), Some(mi), Some(sec)) => Some(
                civil_days(y, mo, d) * 86_400 + h * 3600 + mi * 60 + sec,
            ),
            _ => None,
        }
    } else {
        None
    }
}

pub open spec fn pow10(n: nat) -> nat
    decreases n,
{
    if n == 0 {
        1
    } else {
        10 * pow10((n - 1) as nat)
    }
}

proof fn lemma_digits_below(s: Seq<char>)
    requires
        all_digits(s),
    ensures
        digits_val(s) < pow10(s.len()),
    decreases s.len(),
{
    if s.len() > 0 {
        let t = s.drop_last();
        assert(all_digits(t)) by {
            assert forall|i: int| 0 <= i < t.len() implies crate::text::is_digit(#[trigger] t[i]) by {
                assert(t[i] == s[i]);
            }
        }
        lemma_digits_below(t);
        assert(crate::text::is_digit(s[s.len() - 1]));
    }
}

/// A number written in at most `n` characters lies within what `n` digits hold.
proof fn lemma_short_number(s: Seq<char>)
    requires
        s.len() <= 4,
        parse_i64(s) is Some,
    ensures
        parse_i64(s) matches Some(v) && -999 <= v <= 9999,
        s.len() <= 2 ==> (parse_i64(s) matches Some(v) && -9 <= v <= 99),
{
    let body = if s.len() > 0 && (s[0] == '+' || s[0] == '-') {
        s.drop_first()
    } else {
        s
    };
    lemma_digits_below(body);
    assert(pow10(0) == 1);
    assert(pow10(1) == 10);
    assert(pow10(2) == 100);
    assert(pow10(3) == 1000);
    assert(pow10(4) == 10000);
}

/// [`field`], with the bound its width gives.
fn field_of(s: &[char], a: usize, b: usize) -> (r: Option<i64>)
    requires
        a <= b <= 30,
        b - a <= 4,
    ensures
        r matches Some(v) ==> field(s@, a as int, b as int) == Some(v as int),
        r is None ==> field(s@, a as int, b as int) is None,
        r matches Some(v) ==> -999 <= v <= 9999,
        b - a <= 2 ==> (r matches Some(v) ==> -9 <= v <= 99),
{
    match (at_byte(s, a), at_byte(s, b)) {
        (Some(i), Some(j)) => {
            if i <= j {
                let t = slice_of(s, i, j);
                let v = parse_i64_of(t.as_slice());
                proof {
                    if v is Some {
                        lemma_byte_len_grows(s@, i as int, j as int);
                        lemma_short_number(t@);
                    }
                }
                v
            } else {
                None
            }
        },
        _ => None,
    }
}

fn byte_of(s: &[char], n: usize, c: char) -> (r: bool)
    requires
        n <= 30,
    ensures
        r == byte_is(s@, n as int, c),
{
    match at_byte(s, n) {
        Some(i) => i < s.len() && s[i] == c,
        None => false,
    }
}

#[verifier::spinoff_prover]
#[verifier::rlimit(40)]
fn stamp_of(r: &[char]) -> (t: Option<i64>)
    ensures
        t matches Some(v) ==> (stamp_spec(r@) == Some(v as int) && -1_000_000_000_000 <= v
            <= 1_000_000_000_000),
        t is None ==> stamp_spec(r@) is None,
{
    if !(byte_of(r, 2, '/') && byte_of(r, 5, '/') && byte_of(r, 21, ':')) {
        return None;
    }
    match (
        field_of(r, 0, 2),
        field_of(r, 3, 5),
        field_of(r, 6, 10),
        field_of(r, 13, 15),
        field_of(r, 16, 18),
        field_of(r, 19, 21),
    ) {
        (Some(mo), Some(d), Some(y), Some(h), Some(mi), Some(sec)) => {
            let days = days_from_civil(y, mo, d);
            assert(-4_000_000 <= days <= 4_000_000) by {
                assert(-4_000_000 <= civil_days(y as int, mo as int, d as int) <= 4_000_000)
                    by (nonlinear_arith)
                    requires
                        -999 <= y <= 9999,
                        -9 <= mo <= 99,
                        -9 <= d <= 99,
                ;
            }
            Some(days * 86_400 + h * 3600 + mi * 60 + sec)
        },
        _ => None,
    }
}

/// The time of a log line and where its body starts.
fn split_time_of(line: &[char]) -> (r: Option<(i64, usize)>)
    ensures
        r matches Some((t, b)) ==> (split_time_spec(line@) == Some((t as int, b as int)) && b
            <= line@.len() && -1_000_000_000_000 <= t <= 1_000_000_000_000),
        r is None ==> split_time_spec(line@) is None,
{
    if line.len() < 2 || line[0] != 'L' || line[1] != ' ' {
        proof {
            reveal_strlit("L ");
            if line@.len() >= 2 {
                assert(line@.subrange(0, 2)[0] == line@[0]);
                assert(line@.subrange(0, 2)[1] == line@[1]);
            }
        }
        return None;
    }
    assert(line@.subrange(0, 2) =~= "L "@) by {
        reveal_strlit("L ");
    }
    let rest = slice_of(line, 2, line.len());
    assert(rest@ =~= line@.skip(2));
    let r = rest.as_slice();
    match (at_byte(r, 22), at_byte(r, 23), stamp_of(r)) {
        (Some(_), Some(b), Some(t)) => Some((t, b + 2)),
        _ => None,
    }
}

/// `L 09/15/2026 - 19:45:09: body` -> (seconds as if UTC, body).
pub fn split_time(line: &str) -> (r: Option<(i64, String)>)
    ensures
        r matches Some((t, body)) ==> (split_time_spec(line@) matches Some((st, b)) && st == t
            && body@ == line@.skip(b)),
        r is None ==> split_time_spec(line@) is None,
{
    let cs = crate::text::chars_of(line);
    match split_time_of(cs.as_slice()) {
        Some((t, b)) => {
            let body = slice_of(cs.as_slice(), b, cs.len());
            Some((t, crate::text::string_of(body.as_slice())))
        },
        None => None,
    }
}

// ---------------------------------------------------------------------------
// Players
// ---------------------------------------------------------------------------

/// What the tag that ends just before byte... just before the `>"` at `end`
/// says: `None` when it is not a well-formed `<uid><steamid><team>` tag,
/// `Some(None)` for a bot or the console, `Some(Some(a))` for a player.
pub open spec fn tag_at(s: Seq<char>, end: int) -> Option<Option<Actor>> {
    let p = s.take(end);
    match rfind(p, seq!['<']) {
        None => None,
        Some(l1) => match rfind(p.take(l1), seq!['<']) {
            None => None,
            Some(l2) => match rfind(p.take(l2), seq!['<']) {
                None => None,
                Some(l3) => {
                    let team = p.skip(l1 + 1);
                    let steam_raw = p.subrange(l2 + 1, l1);
                    let uid_raw = p.subrange(l3 + 1, l2);
                    if !(ends_with(steam_raw, seq!['>']) && ends_with(uid_raw, seq!['>'])) {
                        None
                    } else {
                        let steam = steam_raw.drop_last();
                        let uid = uid_raw.drop_last();
                        if uid.len() == 0 || !all_digits(uid) {
                            None
                        } else if steam == "BOT"@ || steam == "Console"@ {
                            Some(None)
                        } else if starts_with(steam, "[U:1:"@) && ends_with(steam, seq![']'])
                            && steam.len() >= 6 && parse_u32(steam.subrange(5, steam.len() - 1)) is Some {
                            Some(
                                Some(
                                    Actor {
                                        account: parse_u32(
                                            steam.subrange(5, steam.len() - 1),
                                        ).unwrap() as u32,
                                        team: team_named(team),
                                        class: None,
                                    },
                                ),
                            )
                        } else {
                            None
                        }
                    }
                },
            },
        },
    }
}

/// The first tag, from `from` on, that names a player or marks a bot, and
/// where the text after it starts.
pub open spec fn actor_from(s: Seq<char>, from: int) -> Option<(Actor, int)>
    decreases s.len() + 2 - from,
{
    if from < 0 || from > s.len() {
        None
    } else {
        match find_from(s, seq!['>', '"'], from) {
            None => None,
            Some(end) => {
                proof {
                    lemma_find_from_bounds(s, seq!['>', '"'], from);
                }
                match tag_at(s, end) {
                    None => actor_from(s, end + 2),
                    Some(None) => None,
                    Some(Some(a)) => Some((a, end + 2)),
                }
            },
        }
    }
}

/// `"name<uid><[U:1:123]><Red>"` at the start of `s`, and where what follows
/// it starts. Names can hold anything, quotes included, so the actor ends at
/// the first `>"` that closes a well-formed tag. Bots and the console have no
/// account and give `None`.
pub open spec fn actor_spec(s: Seq<char>) -> Option<(Actor, int)> {
    if !starts_with(s, seq!['"']) {
        None
    } else {
        actor_from(s, 0)
    }
}

fn lit(s: &str) -> (v: Vec<char>)
    ensures
        v@ == s@,
{
    crate::text::chars_of(s)
}

fn tag_of(s: &[char], end: usize) -> (r: Option<Option<Actor>>)
    requires
        end <= s@.len(),
    ensures
        r == tag_at(s@, end as int),
{
    let lt: [char; 1] = ['<'];
    assert(lt@ =~= seq!['<']);
    let gt: [char; 1] = ['>'];
    assert(gt@ =~= seq!['>']);
    let p = slice_of(s, 0, end);
    assert(p@ =~= s@.take(end as int));
    let l1 = match rfind_in(p.as_slice(), lt.as_slice()) {
        None => return None,
        Some(l) => l,
    };
    proof {
        crate::text::lemma_rfind_bounds(p@, seq!['<'], p@.len() - 1);
    }
    let q = slice_of(p.as_slice(), 0, l1);
    assert(q@ =~= p@.take(l1 as int));
    let l2 = match rfind_in(q.as_slice(), lt.as_slice()) {
        None => return None,
        Some(l) => l,
    };
    proof {
        crate::text::lemma_rfind_bounds(q@, seq!['<'], q@.len() - 1);
    }
    let u = slice_of(q.as_slice(), 0, l2);
    assert(u@ =~= p@.take(l2 as int));
    let l3 = match rfind_in(u.as_slice(), lt.as_slice()) {
        None => return None,
        Some(l) => l,
    };
    proof {
        crate::text::lemma_rfind_bounds(u@, seq!['<'], u@.len() - 1);
    }
    let team = slice_of(p.as_slice(), l1 + 1, p.len());
    assert(team@ =~= p@.skip(l1 + 1));
    let steam_raw = slice_of(p.as_slice(), l2 + 1, l1);
    let uid_raw = slice_of(p.as_slice(), l3 + 1, l2);
    if !(crate::text::has_suffix(steam_raw.as_slice(), gt.as_slice()) && crate::text::has_suffix(
        uid_raw.as_slice(),
        gt.as_slice(),
    )) {
        return None;
    }
    let steam = slice_of(steam_raw.as_slice(), 0, steam_raw.len() - 1);
    assert(steam@ =~= steam_raw@.drop_last());
    let uid = slice_of(uid_raw.as_slice(), 0, uid_raw.len() - 1);
    assert(uid@ =~= uid_raw@.drop_last());
    if uid.len() == 0 || !digits_only(uid.as_slice()) {
        return None;
    }
    let bot = lit("BOT");
    let console = lit("Console");
    if crate::text::same(steam.as_slice(), bot.as_slice()) || crate::text::same(
        steam.as_slice(),
        console.as_slice(),
    ) {
        return Some(None);
    }
    let pre = lit("[U:1:");
    let close: [char; 1] = [']'];
    assert(close@ =~= seq![']']);
    proof {
        reveal_strlit("[U:1:");
    }
    if crate::text::has_prefix(steam.as_slice(), pre.as_slice()) && crate::text::has_suffix(
        steam.as_slice(),
        close.as_slice(),
    ) && steam.len() >= 6 {
        let digits = slice_of(steam.as_slice(), 5, steam.len() - 1);
        match parse_u32_of(digits.as_slice()) {
            Some(account) => {
                let t = Team::parse_chars(team.as_slice());
                Some(Some(Actor { account, team: t, class: None }))
            },
            None => None,
        }
    } else {
        None
    }
}

fn digits_only(s: &[char]) -> (b: bool)
    ensures
        b == all_digits(s@),
{
    let mut i: usize = 0;
    while i < s.len()
        invariant
            i <= s@.len(),
            forall|j: int| 0 <= j < i ==> crate::text::is_digit(#[trigger] s@[j]),
        decreases s@.len() - i,
    {
        if !crate::text::digit(s[i]) {
            return false;
        }
        i += 1;
    }
    true
}

/// [`actor_spec`]: the actor at the start of `s` and where the rest starts.
fn actor_of(s: &[char]) -> (r: Option<(Actor, usize)>)
    ensures
        r matches Some((a, k)) ==> (actor_spec(s@) == Some((a, k as int)) && k <= s@.len()),
        r is None ==> actor_spec(s@) is None,
{
    if s.len() == 0 || s[0] != '"' {
        proof {
            if s@.len() > 0 {
                assert(s@.subrange(0, 1)[0] == s@[0]);
            }
        }
        return None;
    }
    assert(s@.subrange(0, 1) =~= seq!['"']);
    let pat: [char; 2] = ['>', '"'];
    assert(pat@ =~= seq!['>', '"']);
    let mut from: usize = 0;
    loop
        invariant
            from <= s@.len() + 2,
            pat@ == seq!['>', '"'],
            actor_spec(s@) == actor_from(s@, from as int),
        decreases s@.len() + 2 - from,
    {
        if from > s.len() {
            return None;
        }
        match find_at(s, pat.as_slice(), from) {
            None => return None,
            Some(end) => {
                proof {
                    lemma_find_from_bounds(s@, seq!['>', '"'], from as int);
                }
                match tag_of(s, end) {
                    None => {
                        from = end + 2;
                    },
                    Some(None) => return None,
                    Some(Some(a)) => return Some((a, end + 2)),
                }
            },
        }
    }
}

// ---------------------------------------------------------------------------
// Properties
// ---------------------------------------------------------------------------

/// `(key "` as it opens a property.
pub open spec fn needle(key: Seq<char>) -> Seq<char> {
    seq!['('] + key + seq![' ', '"']
}

/// The value of `(key "value")` in the tail of a line: what follows the
/// first `(key "` up to the next quote.
pub open spec fn prop_spec(tail: Seq<char>, key: Seq<char>) -> Option<Seq<char>> {
    match find(tail, needle(key)) {
        None => None,
        Some(i) => {
            let start = i + needle(key).len();
            match find(tail.skip(start), seq!['"']) {
                None => None,
                Some(l) => Some(tail.subrange(start, start + l)),
            }
        },
    }
}

fn prop_of(tail: &[char], key: &str) -> (r: Option<Vec<char>>)
    ensures
        r matches Some(v) ==> prop_spec(tail@, key@) == Some(v@) && v@.len() <= tail@.len(),
        r is None ==> prop_spec(tail@, key@) is None,
{
    let mut n: Vec<char> = Vec::new();
    n.push('(');
    crate::text::push_str(&mut n, key);
    n.push(' ');
    n.push('"');
    assert(n@ =~= needle(key@));
    let i = match find_at(tail, n.as_slice(), 0) {
        None => return None,
        Some(i) => i,
    };
    proof {
        lemma_find_from_bounds(tail@, n@, 0);
        assert(is_at(tail@, i as int, n@));
    }
    let nl = n.len();
    assert(i + nl <= tail@.len());
    assert(tail@.len() == tail.len());
    let start = i + nl;
    let after = slice_of(tail, start, tail.len());
    assert(after@ =~= tail@.skip(start as int));
    let q: [char; 1] = ['"'];
    assert(q@ =~= seq!['"']);
    match find_at(after.as_slice(), q.as_slice(), 0) {
        None => None,
        Some(l) => {
            proof {
                lemma_find_from_bounds(after@, seq!['"'], 0);
            }
            Some(slice_of(tail, start, start + l))
        },
    }
}

// ---------------------------------------------------------------------------
// Positions
// ---------------------------------------------------------------------------

pub open spec fn is_e(c: char) -> bool {
    c == 'e' || c == 'E'
}

/// The first `e` or `E` at or after `from`.
pub open spec fn first_e(s: Seq<char>, from: int) -> Option<int>
    decreases s.len() - from,
{
    if from < 0 || from >= s.len() {
        None
    } else if is_e(s[from]) {
        Some(from)
    } else {
        first_e(s, from + 1)
    }
}

/// An exponent: an optional sign, then one or more digits.
pub open spec fn exp_spec(t: Seq<char>) -> Option<int> {
    let neg = t.len() > 0 && t[0] == '-';
    let body = if t.len() > 0 && (t[0] == '+' || t[0] == '-') {
        t.drop_first()
    } else {
        t
    };
    if body.len() > 0 && all_digits(body) {
        Some(
            if neg {
                -digits_val(body)
            } else {
                digits_val(body) as int
            },
        )
    } else {
        None
    }
}

/// A decimal number as `str::parse::<f64>` accepts one (digits with at most
/// one point, at least one digit, an optional exponent), as its digits and
/// the position of the decimal point among them.
pub open spec fn decimal_spec(body: Seq<char>) -> Option<(Seq<char>, int)> {
    let (mant, exp) = match first_e(body, 0) {
        Some(k) => (body.take(k), exp_spec(body.skip(k + 1))),
        None => (body, Some(0int)),
    };
    match exp {
        None => None,
        Some(e) => {
            let (ip, fp) = match find(mant, seq!['.']) {
                Some(d) => (mant.take(d), mant.skip(d + 1)),
                None => (mant, Seq::<char>::empty()),
            };
            if all_digits(ip) && all_digits(fp) && ip.len() + fp.len() > 0 {
                Some((ip + fp, ip.len() + e))
            } else {
                None
            }
        },
    }
}

pub open spec fn lead_zeros(s: Seq<char>) -> int
    decreases s.len(),
{
    if s.len() > 0 && s[0] == '0' {
        1 + lead_zeros(s.drop_first())
    } else {
        0
    }
}

/// The whole part of the number with digits `d` and point at `p`.
pub open spec fn int_of(d: Seq<char>, p: int) -> int {
    if p <= 0 {
        0
    } else if p >= d.len() {
        (digits_val(d) * pow10((p - d.len()) as nat)) as int
    } else {
        digits_val(d.take(p)) as int
    }
}

/// Its first digit after the point.
pub open spec fn frac_digit(d: Seq<char>, p: int) -> int {
    if 0 <= p < d.len() {
        crate::text::digit_val(d[p]) as int
    } else {
        0
    }
}

/// The number rounded half away from zero: the whole part, plus one when
/// the first digit after the point is 5 or more.
pub open spec fn rounded(digits: Seq<char>, point: int) -> int {
    let z = lead_zeros(digits);
    let d = digits.skip(z);
    let p = point - z;
    if d.len() == 0 {
        0
    } else {
        int_of(d, p) + if frac_digit(d, p) >= 5 {
            1int
        } else {
            0int
        }
    }
}

pub open spec fn clamp_i32(v: int) -> int {
    if v < i32::MIN {
        i32::MIN as int
    } else if v > i32::MAX {
        i32::MAX as int
    } else {
        v
    }
}

/// One coordinate: the word read as a number, rounded half away from zero
/// and saturated into `i32` (infinities to the ends, NaN to 0), as
/// `str::parse::<f64>`, `f64::round` and `as i32` would make it. The number
/// is taken exactly; binary floating point reads the same except on words
/// with more significant digits than it holds, next to a half.
pub open spec fn coord_spec(w: Seq<char>) -> Option<int> {
    let neg = w.len() > 0 && w[0] == '-';
    let body = if w.len() > 0 && (w[0] == '+' || w[0] == '-') {
        w.drop_first()
    } else {
        w
    };
    let name = crate::text::lower_s(body);
    if name == "inf"@ || name == "infinity"@ {
        Some(
            if neg {
                i32::MIN as int
            } else {
                i32::MAX as int
            },
        )
    } else if name == "nan"@ {
        Some(0)
    } else {
        match decimal_spec(body) {
            None => None,
            Some((digits, point)) => {
                let m = rounded(digits, point);
                Some(
                    clamp_i32(
                        if neg {
                            -m
                        } else {
                            m
                        },
                    ),
                )
            },
        }
    }
}

proof fn lemma_pow10_add(a: nat, b: nat)
    ensures
        pow10(a) * pow10(b) == pow10(a + b),
        pow10(a) >= 1,
    decreases b,
{
    lemma_pow10_pos(a);
    if b > 0 {
        let b1 = (b - 1) as nat;
        lemma_pow10_add(a, b1);
        let x = pow10(a);
        let y = pow10(b1);
        let z = pow10(a + b1);
        assert(pow10(b) == 10 * y);
        assert(a + b == (a + b1) + 1);
        assert(pow10(a + b) == 10 * z);
        assert(x * (10 * y) == 10 * z) by (nonlinear_arith)
            requires
                x * y == z,
        ;
    } else {
        assert(pow10(0) == 1);
        assert(a + b == a);
    }
}

proof fn lemma_pow10_ten()
    ensures
        pow10(10) == 10_000_000_000,
{
    reveal_with_fuel(pow10, 11);
}

proof fn lemma_pow10_nineteen()
    ensures
        pow10(19) == 10_000_000_000_000_000_000,
{
    reveal_with_fuel(pow10, 20);
}

proof fn lemma_pow10_pos(a: nat)
    ensures
        pow10(a) >= 1,
    decreases a,
{
    if a > 0 {
        lemma_pow10_pos((a - 1) as nat);
    }
}

proof fn lemma_pow10_mono(a: nat, b: nat)
    requires
        a <= b,
    ensures
        pow10(a) <= pow10(b),
    decreases b,
{
    if a < b {
        lemma_pow10_mono(a, (b - 1) as nat);
        lemma_pow10_pos((b - 1) as nat);
    }
}

/// Digits that start with a non-zero one are worth at least a one and zeros.
proof fn lemma_digits_at_least(s: Seq<char>)
    requires
        all_digits(s),
        s.len() >= 1,
        s[0] != '0',
    ensures
        digits_val(s) >= pow10((s.len() - 1) as nat),
    decreases s.len(),
{
    if s.len() > 1 {
        let t = s.drop_last();
        assert(all_digits(t)) by {
            assert forall|i: int| 0 <= i < t.len() implies crate::text::is_digit(#[trigger] t[i]) by {
                assert(t[i] == s[i]);
            }
        }
        lemma_digits_at_least(t);
    } else {
        assert(crate::text::is_digit(s[0]));
    }
}

proof fn lemma_all_digits_sub(s: Seq<char>, i: int, j: int)
    requires
        all_digits(s),
        0 <= i <= j <= s.len(),
    ensures
        all_digits(s.subrange(i, j)),
{
    assert forall|k: int| 0 <= k < j - i implies crate::text::is_digit(#[trigger] s.subrange(i, j)[k]) by {
        assert(s.subrange(i, j)[k] == s[i + k]);
    }
}

/// Past ten digits before the point, the number is beyond any `i32`.
proof fn lemma_big(d: Seq<char>, p: int, cap: nat)
    requires
        all_digits(d),
        d.len() >= 1,
        d[0] != '0',
        p > cap,
    ensures
        int_of(d, p) >= pow10(cap),
{
    if p >= d.len() {
        lemma_digits_at_least(d);
        lemma_pow10_add((d.len() - 1) as nat, (p - d.len()) as nat);
        lemma_pow10_mono(cap, (p - 1) as nat);
        assert(digits_val(d) * pow10((p - d.len()) as nat) >= pow10((d.len() - 1) as nat) * pow10(
            (p - d.len()) as nat,
        )) by (nonlinear_arith)
            requires
                digits_val(d) >= pow10((d.len() - 1) as nat),
                pow10((p - d.len()) as nat) >= 0,
        ;
    } else {
        lemma_all_digits_sub(d, 0, p);
        assert(d.take(p) =~= d.subrange(0, p));
        lemma_digits_at_least(d.take(p));
        lemma_pow10_mono(cap, (p - 1) as nat);
    }
}

fn find_e(s: &[char]) -> (r: Option<usize>)
    ensures
        r matches Some(k) ==> (first_e(s@, 0) == Some(k as int) && k < s@.len()),
        r is None ==> first_e(s@, 0) is None,
{
    let mut i: usize = 0;
    while i < s.len()
        invariant
            i <= s@.len(),
            first_e(s@, 0) == first_e(s@, i as int),
        decreases s@.len() - i,
    {
        if s[i] == 'e' || s[i] == 'E' {
            return Some(i);
        }
        i += 1;
    }
    None
}

/// Beyond this size an exponent moves every digit of any text out of (or
/// into) the whole part alike.
pub const EXP_CAP: i128 = 1_180_591_620_717_411_303_424;

/// [`exp_spec`], with the exponent's size held to [`EXP_CAP`].
fn exp_of(t: &[char]) -> (r: Option<i128>)
    ensures
        r is Some <==> exp_spec(t@) is Some,
        r matches Some(v) ==> (exp_spec(t@) matches Some(e) && ((-EXP_CAP <= e <= EXP_CAP
            && v == e) || (e > EXP_CAP && v == EXP_CAP) || (e < -EXP_CAP && v == -EXP_CAP))),
{
    let neg = t.len() > 0 && t[0] == '-';
    let lo: usize = if t.len() > 0 && (t[0] == '+' || t[0] == '-') {
        1
    } else {
        0
    };
    let body = slice_of(t, lo, t.len());
    assert(lo == 1 ==> body@ =~= t@.drop_first());
    assert(lo == 0 ==> body@ =~= t@);
    if body.len() == 0 || !digits_only(body.as_slice()) {
        return None;
    }
    let mut acc: i128 = 0;
    let mut i: usize = 0;
    while i < body.len()
        invariant
            i <= body@.len(),
            all_digits(body@),
            acc == if digits_val(body@.take(i as int)) < EXP_CAP {
                digits_val(body@.take(i as int)) as int
            } else {
                EXP_CAP as int
            },
        decreases body@.len() - i,
    {
        assert(body@.take(i + 1).drop_last() =~= body@.take(i as int));
        assert(crate::text::is_digit(body@[i as int]));
        let d = (body[i] as u32 - '0' as u32) as i128;
        if acc >= EXP_CAP || acc * 10 + d >= EXP_CAP {
            acc = EXP_CAP;
        } else {
            acc = acc * 10 + d;
        }
        i += 1;
    }
    assert(body@.take(body@.len() as int) =~= body@);
    if neg {
        Some(-acc)
    } else {
        Some(acc)
    }
}

/// How many zeros lead `s`.
fn lead_zeros_of(s: &[char]) -> (z: usize)
    ensures
        z == lead_zeros(s@),
        z <= s@.len(),
{
    let mut z: usize = 0;
    assert(s@.skip(0) =~= s@);
    while z < s.len() && s[z] == '0'
        invariant
            z <= s@.len(),
            lead_zeros(s@) == z + lead_zeros(s@.skip(z as int)),
        decreases s@.len() - z,
    {
        assert(s@.skip(z as int).drop_first() =~= s@.skip(z + 1));
        z += 1;
    }
    z
}

/// The value of the first `k` digits of `d`, for at most `cap` of them.
fn leading_value(d: &[char], k: usize, cap: usize) -> (v: u64)
    requires
        k <= d@.len(),
        k <= cap <= 19,
        all_digits(d@),
    ensures
        v == digits_val(d@.take(k as int)),
        v < pow10(cap as nat),
{
    let mut v: u64 = 0;
    let mut i: usize = 0;
    proof {
        lemma_pow10_mono(0, cap as nat);
        lemma_pow10_mono(cap as nat, 19);
        lemma_pow10_nineteen();
    }
    assert(d@.take(0) =~= Seq::<char>::empty());
    while i < k
        invariant
            i <= k <= d@.len(),
            k <= cap <= 19,
            all_digits(d@),
            v == digits_val(d@.take(i as int)),
            v < pow10(i as nat),
            pow10(i as nat) <= pow10(cap as nat),
            pow10(cap as nat) <= pow10(19),
            pow10(19) == 10_000_000_000_000_000_000,
        decreases k - i,
    {
        assert(d@.take(i + 1).drop_last() =~= d@.take(i as int));
        assert(crate::text::is_digit(d@[i as int]));
        proof {
            lemma_pow10_mono((i + 1) as nat, cap as nat);
        }
        v = v * 10 + (d[i] as u32 - '0' as u32) as u64;
        i += 1;
    }
    v
}

/// `e` is the exponent `e_true` held to [`EXP_CAP`].
pub open spec fn capped(e_true: int, e: int) -> bool {
    ||| (-EXP_CAP <= e_true <= EXP_CAP && e == e_true)
    ||| (e_true > EXP_CAP && e == EXP_CAP)
    ||| (e_true < -EXP_CAP && e == -EXP_CAP)
}

/// [`decimal_spec`]: the digits, the exponent held to [`EXP_CAP`], and how
/// many digits stand before the point.
fn decimal_of(body: &[char]) -> (r: Option<(Vec<char>, i128, usize)>)
    ensures
        r is Some <==> decimal_spec(body@) is Some,
        r matches Some((dg, e, il)) ==> (decimal_spec(body@) matches Some((dd, point)) && dd
            == dg@ && il <= dg@.len() && all_digits(dg@) && capped(point - il, e as int)),
{
    let (mant, exp) = match find_e(body) {
        Some(k) => {
            assert(k < body@.len());
            assert(body@.len() == body.len());
            let m = slice_of(body, 0, k);
            assert(m@ =~= body@.take(k as int));
            let t = slice_of(body, k + 1, body.len());
            assert(t@ =~= body@.skip(k + 1));
            match exp_of(t.as_slice()) {
                None => return None,
                Some(e) => (m, e),
            }
        },
        None => (slice_of(body, 0, body.len()), 0),
    };
    assert(body@.subrange(0, body@.len() as int) =~= body@);
    let ghost e_true: int = match first_e(body@, 0) {
        Some(k) => exp_spec(body@.skip(k + 1)).unwrap(),
        None => 0int,
    };
    assert(capped(e_true, exp as int));
    let dot: [char; 1] = ['.'];
    assert(dot@ =~= seq!['.']);
    let (ip, fp) = match find_at(mant.as_slice(), dot.as_slice(), 0) {
        Some(d) => {
            proof {
                lemma_find_from_bounds(mant@, seq!['.'], 0);
            }
            let a = slice_of(mant.as_slice(), 0, d);
            assert(a@ =~= mant@.take(d as int));
            let b = slice_of(mant.as_slice(), d + 1, mant.len());
            assert(b@ =~= mant@.skip(d + 1));
            (a, b)
        },
        None => (slice_of(mant.as_slice(), 0, mant.len()), Vec::new()),
    };
    assert(mant@.subrange(0, mant@.len() as int) =~= mant@);
    if !(digits_only(ip.as_slice()) && digits_only(fp.as_slice()) && ip.len() + fp.len() > 0) {
        return None;
    }
    let il = ip.len();
    let mut digits = ip;
    crate::text::push_all(&mut digits, fp.as_slice());
    assert(all_digits(digits@)) by {
        assert forall|i: int| 0 <= i < digits@.len() implies crate::text::is_digit(
            #[trigger] digits@[i],
        ) by {
            if i < il {
                assert(digits@[i] == ip@[i]);
            } else {
                assert(digits@[i] == fp@[i - il]);
            }
        }
    }
    Some((digits, exp, il))
}

/// [`rounded`] of the digits with the point `il` digits in, moved by the
/// exponent `e_true` (held to `e`); `None` when it is `10^cap` or more.
fn rounded_of(digits: &[char], il: usize, e: i128, Ghost(point): Ghost<int>, cap: usize) -> (r: Option<u64>)
    requires
        all_digits(digits@),
        il <= digits@.len(),
        capped(point - il, e as int),
        1 <= cap <= 19,
    ensures
        r matches Some(m) ==> m == rounded(digits@, point) && m <= pow10(cap as nat),
        r is None ==> rounded(digits@, point) >= pow10(cap as nat),
{
    proof {
        lemma_pow10_mono(cap as nat, 19);
        lemma_pow10_nineteen();
        lemma_pow10_pos(cap as nat);
    }
    let z = lead_zeros_of(digits);
    let d = slice_of(digits, z, digits.len());
    assert(d@ =~= digits@.skip(z as int));
    proof {
        lemma_all_digits_sub(digits@, z as int, digits@.len() as int);
    }
    if d.len() == 0 {
        return Some(0);
    }
    assert(d@[0] != '0') by {
        lemma_lead_zeros_stop(digits@);
    }
    let p: i128 = il as i128 + e - z as i128;
    let ghost p_true: int = point - z;
    if p > cap as i128 {
        proof {
            lemma_big(d@, p_true, cap as nat);
        }
        return None;
    }
    assert(p_true <= cap && (p_true < 0 <==> p < 0) && (p >= 0 ==> p == p_true));
    let (whole, first): (u64, u64) = if p <= 0 {
        let f: u64 = if p == 0 {
            assert(crate::text::is_digit(d@[0]));
            (d[0] as u32 - '0' as u32) as u64
        } else {
            0
        };
        (0, f)
    } else if (p as usize) < d.len() {
        let w = leading_value(d.as_slice(), p as usize, cap);
        assert(crate::text::is_digit(d@[p as int]));
        let f = (d[p as usize] as u32 - '0' as u32) as u64;
        (w, f)
    } else {
        let w0 = leading_value(d.as_slice(), d.len(), cap);
        assert(d@.take(d@.len() as int) =~= d@);
        proof {
            lemma_digits_below(d@);
        }
        let mut w = w0;
        let mut j: usize = d.len();
        assert(pow10(0) == 1);
        assert(w == digits_val(d@) * pow10(0));
        proof {
            lemma_pow10_mono(d@.len(), cap as nat);
        }
        while j < p as usize
            invariant
                d@.len() <= j <= p <= cap <= 19,
                w < pow10(j as nat),
                pow10(j as nat) <= pow10(cap as nat),
                pow10(cap as nat) <= pow10(19),
                pow10(19) == 10_000_000_000_000_000_000,
                all_digits(d@),
                digits_val(d@) < pow10(d@.len()),
                w == digits_val(d@) * pow10((j - d@.len()) as nat),
            decreases p - j,
        {
            proof {
                lemma_pow10_add(d@.len(), (j - d@.len()) as nat);
                lemma_pow10_pos((j - d@.len()) as nat);
                lemma_pow10_mono((j + 1) as nat, cap as nat);
                assert(w < pow10(j as nat)) by (nonlinear_arith)
                    requires
                        w == digits_val(d@) * pow10((j - d@.len()) as nat),
                        digits_val(d@) < pow10(d@.len()),
                        pow10(d@.len()) * pow10((j - d@.len()) as nat) == pow10(j as nat),
                        pow10((j - d@.len()) as nat) >= 1,
                ;
                assert(pow10((j + 1) as nat) == 10 * pow10(j as nat));
                assert(pow10((j + 1 - d@.len()) as nat) == 10 * pow10((j - d@.len()) as nat));
                assert(w * 10 == digits_val(d@) * pow10((j + 1 - d@.len()) as nat)) by (nonlinear_arith)
                    requires
                        w == digits_val(d@) * pow10((j - d@.len()) as nat),
                        pow10((j + 1 - d@.len()) as nat) == 10 * pow10((j - d@.len()) as nat),
                ;
            }
            w = w * 10;
            j += 1;
        }
        assert(w < pow10(cap as nat));
        (w, 0)
    };
    if first >= 5 {
        Some(whole + 1)
    } else {
        Some(whole)
    }
}

/// [`coord_spec`].
fn coord_of(w: &[char]) -> (r: Option<i32>)
    ensures
        r matches Some(v) ==> coord_spec(w@) == Some(v as int),
        r is None ==> coord_spec(w@) is None,
{
    let neg = w.len() > 0 && w[0] == '-';
    let lo: usize = if w.len() > 0 && (w[0] == '+' || w[0] == '-') {
        1
    } else {
        0
    };
    let body = slice_of(w, lo, w.len());
    assert(lo == 1 ==> body@ =~= w@.drop_first());
    assert(lo == 0 ==> body@ =~= w@);
    let name = crate::text::lowered(body.as_slice());
    let inf = lit("inf");
    let infinity = lit("infinity");
    let nan = lit("nan");
    if crate::text::same(name.as_slice(), inf.as_slice()) || crate::text::same(
        name.as_slice(),
        infinity.as_slice(),
    ) {
        return Some(
            if neg {
                i32::MIN
            } else {
                i32::MAX
            },
        );
    }
    if crate::text::same(name.as_slice(), nan.as_slice()) {
        return Some(0);
    }
    let (digits, e, il) = match decimal_of(body.as_slice()) {
        None => return None,
        Some(x) => x,
    };
    let ghost point = decimal_spec(body@).unwrap().1;
    assert(digits@.len() <= body@.len()) by {
        lemma_decimal_len(body@);
    }
    proof {
        lemma_pow10_ten();
    }
    match rounded_of(digits.as_slice(), il, e, Ghost(point), 10) {
        None => Some(
            if neg {
                i32::MIN
            } else {
                i32::MAX
            },
        ),
        Some(m) => {
            let v: i64 = if neg {
                -(m as i64)
            } else {
                m as i64
            };
            if v < i32::MIN as i64 {
                Some(i32::MIN)
            } else if v > i32::MAX as i64 {
                Some(i32::MAX)
            } else {
                Some(v as i32)
            }
        },
    }
}

pub open spec fn clamp_i64(v: int) -> int {
    if v < i64::MIN {
        i64::MIN as int
    } else if v > i64::MAX {
        i64::MAX as int
    } else {
        v
    }
}

/// A number as JSON writes it (an optional `-`, digits, an optional
/// fraction and exponent), rounded half away from zero and saturated into
/// `i64`.
pub open spec fn number_spec(w: Seq<char>) -> Option<int> {
    let neg = w.len() > 0 && w[0] == '-';
    let body = if neg {
        w.drop_first()
    } else {
        w
    };
    match decimal_spec(body) {
        None => None,
        Some((digits, point)) => {
            let m = rounded(digits, point);
            Some(
                clamp_i64(
                    if neg {
                        -m
                    } else {
                        m
                    },
                ),
            )
        },
    }
}

/// [`number_spec`].
pub fn number_of(w: &[char]) -> (r: Option<i64>)
    ensures
        r matches Some(v) ==> number_spec(w@) == Some(v as int),
        r is None ==> number_spec(w@) is None,
{
    let neg = w.len() > 0 && w[0] == '-';
    let lo: usize = if neg {
        1
    } else {
        0
    };
    let body = slice_of(w, lo, w.len());
    assert(lo == 1 ==> body@ =~= w@.drop_first());
    assert(lo == 0 ==> body@ =~= w@);
    let (digits, e, il) = match decimal_of(body.as_slice()) {
        None => return None,
        Some(x) => x,
    };
    let ghost point = decimal_spec(body@).unwrap().1;
    assert(digits@.len() <= body@.len()) by {
        lemma_decimal_len(body@);
    }
    proof {
        lemma_pow10_nineteen();
    }
    match rounded_of(digits.as_slice(), il, e, Ghost(point), 19) {
        None => Some(
            if neg {
                i64::MIN
            } else {
                i64::MAX
            },
        ),
        Some(m) => {
            let v: i128 = if neg {
                -(m as i128)
            } else {
                m as i128
            };
            if v < i64::MIN as i128 {
                Some(i64::MIN)
            } else if v > i64::MAX as i128 {
                Some(i64::MAX)
            } else {
                Some(v as i64)
            }
        },
    }
}

proof fn lemma_decimal_len(body: Seq<char>)
    ensures
        decimal_spec(body) matches Some((d, p)) ==> d.len() <= body.len(),
{
    lemma_first_e_bounds(body, 0);
    let mant = match first_e(body, 0) {
        Some(k) => body.take(k),
        None => body,
    };
    lemma_find_from_bounds(mant, seq!['.'], 0);
}

proof fn lemma_first_e_bounds(s: Seq<char>, from: int)
    ensures
        first_e(s, from) matches Some(k) ==> from <= k < s.len(),
    decreases s.len() - from,
{
    if from >= 0 && from < s.len() && !is_e(s[from]) {
        lemma_first_e_bounds(s, from + 1);
    }
}

proof fn lemma_lead_zeros_stop(s: Seq<char>)
    ensures
        0 <= lead_zeros(s) <= s.len(),
        lead_zeros(s) < s.len() ==> s[lead_zeros(s)] != '0',
        forall|i: int| 0 <= i < lead_zeros(s) ==> s[i] == '0',
    decreases s.len(),
{
    if s.len() > 0 && s[0] == '0' {
        lemma_lead_zeros_stop(s.drop_first());
        assert forall|i: int| 0 <= i < lead_zeros(s) implies s[i] == '0' by {
            if i > 0 {
                assert(s[i] == s.drop_first()[i - 1]);
            }
        }
    }
}

/// The first whitespace at or after `from`.
pub open spec fn first_ws(s: Seq<char>, from: int) -> Option<int>
    decreases s.len() - from,
{
    if from < 0 || from >= s.len() {
        None
    } else if crate::text::is_ws(s[from]) {
        Some(from)
    } else {
        first_ws(s, from + 1)
    }
}

/// The first word of `s` (`str::split_whitespace`) and what follows it.
pub open spec fn next_word(s: Seq<char>) -> Option<(Seq<char>, Seq<char>)> {
    let t = crate::text::trim_start(s);
    if t.len() == 0 {
        None
    } else {
        let k = match first_ws(t, 0) {
            Some(k) => k,
            None => t.len() as int,
        };
        Some((t.take(k), t.skip(k)))
    }
}

/// `x y z` as a position: the first three words, each a coordinate.
pub open spec fn position_spec(s: Seq<char>) -> Option<Seq<i32>> {
    match next_word(s) {
        None => None,
        Some((w1, r1)) => match next_word(r1) {
            None => None,
            Some((w2, r2)) => match next_word(r2) {
                None => None,
                Some((w3, _)) => match (coord_spec(w1), coord_spec(w2), coord_spec(w3)) {
                    (Some(x), Some(y), Some(z)) => Some(seq![x as i32, y as i32, z as i32]),
                    _ => None,
                },
            },
        },
    }
}

/// The next word of `s` from `from` on, as `[start, end)`.
fn next_word_of(s: &[char], from: usize) -> (r: Option<(usize, usize)>)
    requires
        from <= s@.len(),
    ensures
        r matches Some((a, b)) ==> (from <= a < b <= s@.len() && next_word(s@.skip(from as int))
            == Some((s@.subrange(a as int, b as int), s@.skip(b as int)))),
        r is None ==> next_word(s@.skip(from as int)) is None,
{
    let mut a = from;
    while a < s.len() && crate::text::ws(s[a])
        invariant
            from <= a <= s@.len(),
            crate::text::trim_start(s@.skip(from as int)) == crate::text::trim_start(
                s@.skip(a as int),
            ),
        decreases s@.len() - a,
    {
        assert(s@.skip(a as int).drop_first() =~= s@.skip(a + 1));
        a += 1;
    }
    let ghost t = s@.skip(a as int);
    assert(crate::text::trim_start(t) == t);
    if a == s.len() {
        return None;
    }
    let mut b = a;
    while b < s.len() && !crate::text::ws(s[b])
        invariant
            a <= b <= s@.len(),
            t == s@.skip(a as int),
            first_ws(t, 0) == first_ws(t, b - a),
        decreases s@.len() - b,
    {
        assert(t[b - a] == s@[b as int]);
        b += 1;
    }
    proof {
        if b < s@.len() {
            assert(t[b - a] == s@[b as int]);
        }
    }
    assert(t.take(b - a) =~= s@.subrange(a as int, b as int));
    assert(t.skip(b - a) =~= s@.skip(b as int));
    Some((a, b))
}

/// [`position_spec`].
fn position_of(s: &[char]) -> (r: Option<[i32; 3]>)
    ensures
        r matches Some(p) ==> position_spec(s@) == Some(p@),
        r is None ==> position_spec(s@) is None,
{
    assert(s@.skip(0) =~= s@);
    let (a1, b1) = match next_word_of(s, 0) {
        None => return None,
        Some(x) => x,
    };
    let (a2, b2) = match next_word_of(s, b1) {
        None => return None,
        Some(x) => x,
    };
    let (a3, b3) = match next_word_of(s, b2) {
        None => return None,
        Some(x) => x,
    };
    let w1 = slice_of(s, a1, b1);
    let w2 = slice_of(s, a2, b2);
    let w3 = slice_of(s, a3, b3);
    match (coord_of(w1.as_slice()), coord_of(w2.as_slice()), coord_of(w3.as_slice())) {
        (Some(x), Some(y), Some(z)) => {
            let p = [x, y, z];
            assert(p@ =~= seq![x, y, z]);
            Some(p)
        },
        _ => None,
    }
}

// ---------------------------------------------------------------------------
// The parser
// ---------------------------------------------------------------------------

/// The parser's state between lines: the log so far, each player's latest
/// class, and whether a round is being played.
pub struct Parsing {
    pub log: RawLogV,
    pub class: Map<u32, TfClass>,
    pub live: bool,
}

pub open spec fn start() -> Parsing {
    Parsing {
        log: RawLogV {
            kills: Seq::empty(),
            chat: Seq::empty(),
            rounds: 0,
            round_starts: Seq::empty(),
            damage: Seq::empty(),
            map_loads: Seq::empty(),
        },
        class: Map::empty(),
        live: false,
    }
}

/// A player with the class they last took.
pub open spec fn classed(m: Map<u32, TfClass>, a: Actor) -> Actor {
    Actor {
        class: if m.contains_key(a.account) {
            Some(m[a.account])
        } else {
            None
        },
        ..a
    }
}

/// The text before the first quote, or all of it.
pub open spec fn before_quote(r: Seq<char>) -> Seq<char> {
    match find(r, seq!['"']) {
        Some(i) => r.take(i),
        None => r,
    }
}

/// `weapon" tail`: the text before the first quote and after it.
pub open spec fn split_quote(r: Seq<char>) -> (Seq<char>, Seq<char>) {
    match find(r, seq!['"']) {
        Some(i) => (r.take(i), r.skip(i + 1)),
        None => (r, Seq::empty()),
    }
}

pub open spec fn pos_of(o: Option<Seq<char>>) -> Option<Seq<i32>> {
    match o {
        Some(v) => position_spec(v),
        None => None,
    }
}

/// A `World triggered "` line: rounds start and end, maps load.
pub open spec fn world_step(st: Parsing, at: i64, ev: Seq<char>) -> Parsing {
    if starts_with(ev, "Round_Start\""@) {
        Parsing {
            log: RawLogV {
                rounds: (st.log.rounds + 1) as u32,
                round_starts: st.log.round_starts.push(at),
                ..st.log
            },
            live: true,
            ..st
        }
    } else if starts_with(ev, "Round_Win\""@) || starts_with(ev, "Round_Stalemate\""@)
        || starts_with(ev, "Game_Over\""@) {
        Parsing { live: false, ..st }
    } else if starts_with(ev, "meta_data\""@) {
        match prop_spec(ev, "map"@) {
            Some(m) => Parsing {
                log: RawLogV { map_loads: st.log.map_loads.push((at, m)), ..st.log },
                ..st
            },
            None => st,
        }
    } else {
        st
    }
}

/// `killed "victim" with "weapon" (...)`.
pub open spec fn kill_step(st: Parsing, at: i64, who: Actor, r: Seq<char>) -> Parsing {
    match actor_spec(r) {
        None => st,
        Some((victim, k)) => match crate::text::strip_prefix(r.skip(k), " with \""@) {
            None => st,
            Some(r3) => {
                let (weapon, tail) = split_quote(r3);
                let kill = KillV {
                    at,
                    round: st.log.rounds,
                    live: st.live,
                    killer: classed(st.class, who),
                    victim: classed(st.class, victim),
                    weapon,
                    custom: prop_spec(tail, "customkill"@),
                    assister: None,
                    killer_pos: pos_of(prop_spec(tail, "attacker_position"@)),
                    victim_pos: pos_of(prop_spec(tail, "victim_position"@)),
                };
                Parsing { log: RawLogV { kills: st.log.kills.push(kill), ..st.log }, ..st }
            },
        },
    }
}

/// `triggered "damage" against "victim" (damage "n")`.
pub open spec fn damage_step(st: Parsing, at: i64, who: Actor, r: Seq<char>) -> Parsing {
    match actor_spec(r) {
        None => st,
        Some((victim, k)) => match prop_spec(r.skip(k), "damage"@) {
            None => st,
            Some(v) => match parse_i64(v) {
                None => st,
                Some(amount) => {
                    let d = Damage {
                        at,
                        live: st.live,
                        attacker: classed(st.class, who),
                        victim: classed(st.class, victim),
                        amount: amount as i64,
                    };
                    Parsing { log: RawLogV { damage: st.log.damage.push(d), ..st.log }, ..st }
                },
            },
        },
    }
}

/// The kill an assist belongs to: among the latest `left` kills from `i`
/// down, the latest of that victim, at most a second earlier, with no
/// assister yet.
pub open spec fn assist_from(kills: Seq<KillV>, victim: u32, at: int, i: int, left: nat) -> Option<
    int,
>
    decreases left,
{
    if left == 0 || i < 0 || i >= kills.len() {
        None
    } else if kills[i].victim.account == victim && at - kills[i].at <= 1 && kills[i].assister is None {
        Some(i)
    } else {
        assist_from(kills, victim, at, i - 1, (left - 1) as nat)
    }
}

/// `triggered "kill assist" against "victim"`.
pub open spec fn assist_step(st: Parsing, at: i64, who: Actor, r: Seq<char>) -> Parsing {
    match actor_spec(r) {
        None => st,
        Some((victim, _)) => match assist_from(
            st.log.kills,
            victim.account,
            at as int,
            st.log.kills.len() - 1,
            4,
        ) {
            None => st,
            Some(i) => Parsing {
                log: RawLogV {
                    kills: st.log.kills.update(
                        i,
                        KillV { assister: Some(who.account), ..st.log.kills[i] },
                    ),
                    ..st.log
                },
                ..st
            },
        },
    }
}

/// `say_team "msg"` or `say "msg"`.
pub open spec fn chat_step(st: Parsing, at: i64, who: Actor, rest: Seq<char>) -> Parsing {
    let (found, r, team_chat) = match crate::text::strip_prefix(rest, " say_team \""@) {
        Some(r) => (true, r, true),
        None => match crate::text::strip_prefix(rest, " say \""@) {
            Some(r) => (true, r, false),
            None => (false, rest, false),
        },
    };
    if !found {
        st
    } else {
        let message = match crate::text::strip_suffix(r, seq!['"']) {
            Some(m) => m,
            None => r,
        };
        let c = ChatV { at, account: Some(who.account), team_chat, message };
        Parsing { log: RawLogV { chat: st.log.chat.push(c), ..st.log }, ..st }
    }
}

/// A line that starts with a player.
pub open spec fn player_step(st: Parsing, at: i64, who: Actor, rest: Seq<char>) -> Parsing {
    let spawn = match crate::text::strip_prefix(rest, " spawned as \""@) {
        Some(r) => Some(r),
        None => crate::text::strip_prefix(rest, " changed role to \""@),
    };
    match spawn {
        Some(r) => match crate::tfclass::parse_class(crate::text::lower_s(before_quote(r))) {
            Some(c) => Parsing { class: st.class.insert(who.account, c), ..st },
            None => st,
        },
        None => match crate::text::strip_prefix(rest, " killed "@) {
            Some(r) => kill_step(st, at, who, r),
            None => match crate::text::strip_prefix(rest, " triggered \"damage\" against "@) {
                Some(r) => damage_step(st, at, who, r),
                None => match crate::text::strip_prefix(
                    rest,
                    " triggered \"kill assist\" against "@,
                ) {
                    Some(r) => assist_step(st, at, who, r),
                    None => chat_step(st, at, who, rest),
                },
            },
        },
    }
}

/// One line of the log.
#[verifier::opaque]
pub open spec fn step(st: Parsing, line: Seq<char>) -> Parsing {
    match split_time_spec(line) {
        None => st,
        Some((at, b)) => {
            let body = line.skip(b);
            match crate::text::strip_prefix(body, "World triggered \""@) {
                Some(ev) => world_step(st, at as i64, ev),
                None => match actor_spec(body) {
                    None => st,
                    Some((who, k)) => player_step(st, at as i64, who, body.skip(k)),
                },
            }
        },
    }
}

/// A line without its `\r\n` or `\n` ending (`str::lines`).
pub open spec fn unterminated(l: Seq<char>) -> Seq<char> {
    if l.len() > 0 && l.last() == '\r' {
        l.drop_last()
    } else {
        l
    }
}

/// The lines of `s`, one after another (`str::lines`).
#[verifier::opaque]
pub open spec fn parse_text(st: Parsing, s: Seq<char>) -> Parsing
    decreases s.len(),
{
    if s.len() == 0 {
        st
    } else {
        match find(s, seq!['\n']) {
            None => step(st, s),
            Some(i) => {
                proof {
                    lemma_find_from_bounds(s, seq!['\n'], 0);
                }
                parse_text(step(st, unterminated(s.take(i))), s.skip(i + 1))
            },
        }
    }
}

/// The raw log a text holds.
pub open spec fn parse_spec(text: Seq<char>) -> RawLogV {
    parse_text(start(), text).log
}

/// Every kill time a line can carry.
pub open spec fn times_ok(st: Parsing) -> bool {
    forall|i: int|
        0 <= i < st.log.kills.len() ==> -1_000_000_000_000 <= #[trigger] st.log.kills[i].at
            <= 1_000_000_000_000
}

struct Parser {
    log: RawLog,
    class: HashMap<u32, TfClass>,
    live: bool,
}

impl View for Parser {
    type V = Parsing;

    closed spec fn view(&self) -> Parsing {
        Parsing { log: self.log@, class: self.class@, live: self.live }
    }
}

/// `str::strip_prefix` on characters.
fn after(s: &[char], pre: &str) -> (r: Option<Vec<char>>)
    ensures
        r matches Some(v) ==> crate::text::strip_prefix(s@, pre@) == Some(v@),
        r is None ==> crate::text::strip_prefix(s@, pre@) is None,
{
    let p = lit(pre);
    if crate::text::has_prefix(s, p.as_slice()) {
        let v = slice_of(s, p.len(), s.len());
        assert(v@ =~= s@.skip(p@.len() as int));
        Some(v)
    } else {
        None
    }
}

fn starts(s: &[char], pre: &str) -> (b: bool)
    ensures
        b == starts_with(s@, pre@),
{
    let p = lit(pre);
    crate::text::has_prefix(s, p.as_slice())
}

fn quote_at(r: &[char]) -> (i: Option<usize>)
    ensures
        i matches Some(k) ==> (find(r@, seq!['"']) == Some(k as int) && k < r@.len()),
        i is None ==> find(r@, seq!['"']) is None,
{
    let q: [char; 1] = ['"'];
    assert(q@ =~= seq!['"']);
    let i = find_at(r, q.as_slice(), 0);
    proof {
        lemma_find_from_bounds(r@, seq!['"'], 0);
    }
    i
}

impl Parser {
    fn classed_of(&self, a: Actor) -> (r: Actor)
        ensures
            r == classed(self@.class, a),
    {
        let class = match self.class.get(&a.account) {
            Some(c) => Some(*c),
            None => None,
        };
        Actor { class, ..a }
    }

    fn world(&mut self, at: i64, ev: &[char])
        requires
            starts_with(ev@, "Round_Start\""@) ==> old(self)@.log.rounds < u32::MAX,
        ensures
            final(self)@ == world_step(old(self)@, at, ev@),
            final(self)@.log.kills == old(self)@.log.kills,
    {
        if starts(ev, "Round_Start\"") {
            self.log.rounds = self.log.rounds + 1;
            self.log.round_starts.push(at);
            self.live = true;
        } else if starts(ev, "Round_Win\"") || starts(ev, "Round_Stalemate\"") || starts(
            ev,
            "Game_Over\"",
        ) {
            self.live = false;
        } else if starts(ev, "meta_data\"") {
            match prop_of(ev, "map") {
                Some(m) => {
                    let name = crate::text::string_of(m.as_slice());
                    self.log.map_loads.push((at, name));
                    assert(self@.log.map_loads =~= old(self)@.log.map_loads.push((at, m@)));
                },
                None => {},
            }
        }
    }

    fn kill(&mut self, at: i64, who: Actor, r: &[char])
        requires
            times_ok(old(self)@),
            -1_000_000_000_000 <= at <= 1_000_000_000_000,
        ensures
            final(self)@ == kill_step(old(self)@, at, who, r@),
            times_ok(final(self)@),
    {
        let (victim, k) = match actor_of(r) {
            None => return,
            Some(x) => x,
        };
        let r2 = slice_of(r, k, r.len());
        assert(r2@ =~= r@.skip(k as int));
        let r3 = match after(r2.as_slice(), " with \"") {
            None => return,
            Some(v) => v,
        };
        let (weapon, tail) = match quote_at(r3.as_slice()) {
            Some(i) => (slice_of(r3.as_slice(), 0, i), slice_of(r3.as_slice(), i + 1, r3.len())),
            None => (slice_of(r3.as_slice(), 0, r3.len()), Vec::new()),
        };
        assert(r3@.subrange(0, r3@.len() as int) =~= r3@);
        proof {
            match find(r3@, seq!['"']) {
                Some(i) => {
                    assert(weapon@ =~= r3@.take(i));
                    assert(tail@ =~= r3@.skip(i + 1));
                },
                None => {
                    assert(tail@ =~= Seq::<char>::empty());
                },
            }
        }
        assert(tail@.len() <= r@.len());
        let custom = match prop_of(tail.as_slice(), "customkill") {
            Some(v) => Some(crate::text::string_of(v.as_slice())),
            None => None,
        };
        let killer_pos = match prop_of(tail.as_slice(), "attacker_position") {
            Some(v) => position_of(v.as_slice()),
            None => None,
        };
        let victim_pos = match prop_of(tail.as_slice(), "victim_position") {
            Some(v) => position_of(v.as_slice()),
            None => None,
        };
        let killer = self.classed_of(who);
        let victim = self.classed_of(victim);
        let kill = Kill {
            at,
            round: self.log.rounds,
            live: self.live,
            killer,
            victim,
            weapon: crate::text::string_of(weapon.as_slice()),
            custom,
            assister: None,
            killer_pos,
            victim_pos,
        };
        self.log.kills.push(kill);
        proof {
            let (w, t) = split_quote(r3@);
            assert(w == weapon@ && t == tail@);
            assert(self@.log.kills =~= kill_step(old(self)@, at, who, r@).log.kills);
        }
    }

    fn damage(&mut self, at: i64, who: Actor, r: &[char])
        ensures
            final(self)@ == damage_step(old(self)@, at, who, r@),
    {
        let (victim, k) = match actor_of(r) {
            None => return,
            Some(x) => x,
        };
        let r2 = slice_of(r, k, r.len());
        assert(r2@ =~= r@.skip(k as int));
        let v = match prop_of(r2.as_slice(), "damage") {
            None => return,
            Some(v) => v,
        };
        let amount = match parse_i64_of(v.as_slice()) {
            None => return,
            Some(a) => a,
        };
        let d = Damage {
            at,
            live: self.live,
            attacker: self.classed_of(who),
            victim: self.classed_of(victim),
            amount,
        };
        self.log.damage.push(d);
    }

    fn assist(&mut self, at: i64, who: Actor, r: &[char])
        requires
            times_ok(old(self)@),
            -1_000_000_000_000 <= at <= 1_000_000_000_000,
        ensures
            final(self)@ == assist_step(old(self)@, at, who, r@),
            times_ok(final(self)@),
    {
        let (victim, _) = match actor_of(r) {
            None => return,
            Some(x) => x,
        };
        let n = self.log.kills.len();
        let ghost ks = self@.log.kills;
        let mut left: usize = 4;
        let mut i: usize = n;
        // `i` is one past the kill to look at next.
        while left > 0 && i > 0
            invariant
                i <= n == self.log.kills@.len() == ks.len(),
                left <= 4,
                ks == self@.log.kills,
                self@ == old(self)@,
                (actor_spec(r@) matches Some((a, _)) && a == victim),
                times_ok(self@),
                -1_000_000_000_000 <= at <= 1_000_000_000_000,
                assist_from(ks, victim.account, at as int, n - 1, 4) == assist_from(
                    ks,
                    victim.account,
                    at as int,
                    i - 1,
                    left as nat,
                ),
            decreases i,
        {
            let k = &self.log.kills[i - 1];
            assert(k@ == ks[i - 1]);
            assert(-1_000_000_000_000 <= ks[i - 1].at <= 1_000_000_000_000);
            if k.victim.account == victim.account && at - k.at <= 1 && k.assister.is_none() {
                let j = i - 1;
                assert(assist_from(ks, victim.account, at as int, j as int, left as nat) == Some(
                    j as int,
                ));
                self.log.kills[j].assister = Some(who.account);
                proof {
                    assert(self@.log.kills =~= ks.update(
                        j as int,
                        KillV { assister: Some(who.account), ..ks[j as int] },
                    ));
                }
                return;
            }
            left -= 1;
            i -= 1;
        }
    }

    fn chat(&mut self, at: i64, who: Actor, rest: &[char])
        ensures
            final(self)@ == chat_step(old(self)@, at, who, rest@),
    {
        let (r, team_chat) = match after(rest, " say_team \"") {
            Some(r) => (r, true),
            None => match after(rest, " say \"") {
                Some(r) => (r, false),
                None => return,
            },
        };
        let q: [char; 1] = ['"'];
        assert(q@ =~= seq!['"']);
        let message = if crate::text::has_suffix(r.as_slice(), q.as_slice()) {
            let m = slice_of(r.as_slice(), 0, r.len() - 1);
            assert(m@ =~= r@.take(r@.len() - 1));
            m
        } else {
            r
        };
        let c = Chat {
            at,
            account: Some(who.account),
            team_chat,
            message: crate::text::string_of(message.as_slice()),
        };
        self.log.chat.push(c);
        assert(self@.log.chat =~= old(self)@.log.chat.push(c@));
    }

    fn player(&mut self, at: i64, who: Actor, rest: &[char])
        requires
            times_ok(old(self)@),
            -1_000_000_000_000 <= at <= 1_000_000_000_000,
        ensures
            final(self)@ == player_step(old(self)@, at, who, rest@),
            times_ok(final(self)@),
            final(self)@.log.rounds == old(self)@.log.rounds,
    {
        let spawn = match after(rest, " spawned as \"") {
            Some(r) => Some(r),
            None => after(rest, " changed role to \""),
        };
        if let Some(r) = spawn {
            let name = match quote_at(r.as_slice()) {
                Some(i) => slice_of(r.as_slice(), 0, i),
                None => slice_of(r.as_slice(), 0, r.len()),
            };
            assert(name@ == before_quote(r@)) by {
                assert(r@.subrange(0, r@.len() as int) =~= r@);
                if let Some(i) = find(r@, seq!['"']) {
                    assert(name@ =~= r@.take(i));
                }
            }
            let lowered = crate::text::lowered(name.as_slice());
            match TfClass::named(lowered.as_slice()) {
                Some(c) => {
                    self.class.insert(who.account, c);
                },
                None => {},
            }
            return;
        }
        if let Some(r) = after(rest, " killed ") {
            self.kill(at, who, r.as_slice());
        } else if let Some(r) = after(rest, " triggered \"damage\" against ") {
            self.damage(at, who, r.as_slice());
        } else if let Some(r) = after(rest, " triggered \"kill assist\" against ") {
            self.assist(at, who, r.as_slice());
        } else {
            self.chat(at, who, rest);
        }
    }

    fn step(&mut self, line: &[char])
        requires
            times_ok(old(self)@),
            old(self)@.log.rounds == old(self)@.log.round_starts.len(),
            step(old(self)@, line@).log.round_starts.len() <= u32::MAX,
        ensures
            final(self)@ == step(old(self)@, line@),
            times_ok(final(self)@),
            final(self)@.log.rounds == final(self)@.log.round_starts.len(),
    {
        proof {
            lemma_step_round_starts(old(self)@, line@);
            reveal(step);
        }
        let (at, b) = match split_time_of(line) {
            None => return,
            Some(x) => x,
        };
        let body = slice_of(line, b, line.len());
        assert(body@ =~= line@.skip(b as int));
        if let Some(ev) = after(body.as_slice(), "World triggered \"") {
            self.world(at, ev.as_slice());
            return;
        }
        let (who, k) = match actor_of(body.as_slice()) {
            None => return,
            Some(x) => x,
        };
        let rest = slice_of(body.as_slice(), k, body.len());
        assert(rest@ =~= body@.skip(k as int));
        self.player(at, who, rest.as_slice());
    }
}

/// Searching a tail finds what searching the whole from where it starts finds.
pub proof fn lemma_find_skip(s: Seq<char>, pat: Seq<char>, from: int, j: int)
    requires
        0 <= from <= s.len(),
        0 <= j,
    ensures
        find_from(s.skip(from), pat, j) == match find_from(s, pat, from + j) {
            Some(i) => Some(i - from),
            None => None,
        },
    decreases s.len() + 1 - from - j,
{
    let t = s.skip(from);
    if j + pat.len() > t.len() {
    } else {
        assert(t.subrange(j, j + pat.len()) =~= s.subrange(from + j, from + j + pat.len()));
        if !is_at(t, j, pat) {
            lemma_find_skip(s, pat, from, j + 1);
        }
    }
}

proof fn lemma_parse_text_line(st: Parsing, s: Seq<char>)
    requires
        s.len() > 0,
    ensures
        find(s, seq!['\n']) matches Some(i) ==> parse_text(st, s) == parse_text(
            step(st, unterminated(s.take(i))),
            s.skip(i + 1),
        ),
        find(s, seq!['\n']) is None ==> parse_text(st, s) == step(st, s),
{
    reveal(parse_text);
}

proof fn lemma_player_step_rounds(st: Parsing, at: i64, who: Actor, rest: Seq<char>)
    ensures
        player_step(st, at, who, rest).log.rounds == st.log.rounds,
        player_step(st, at, who, rest).log.round_starts == st.log.round_starts,
{
    let spawn = match crate::text::strip_prefix(rest, " spawned as \""@) {
        Some(r) => Some(r),
        None => crate::text::strip_prefix(rest, " changed role to \""@),
    };
    if spawn is None {
        match crate::text::strip_prefix(rest, " killed "@) {
            Some(r) => {
                assert(kill_step(st, at, who, r).log.round_starts == st.log.round_starts);
            },
            None => match crate::text::strip_prefix(rest, " triggered \"damage\" against "@) {
                Some(r) => {
                    assert(damage_step(st, at, who, r).log.round_starts == st.log.round_starts);
                },
                None => match crate::text::strip_prefix(
                    rest,
                    " triggered \"kill assist\" against "@,
                ) {
                    Some(r) => {
                        assert(assist_step(st, at, who, r).log.round_starts
                            == st.log.round_starts);
                    },
                    None => {
                        assert(chat_step(st, at, who, rest).log.round_starts
                            == st.log.round_starts);
                    },
                },
            },
        }
    }
}

/// A line either leaves the rounds as they were or starts one more.
proof fn lemma_step_round_starts(st: Parsing, line: Seq<char>)
    ensures
        step(st, line).log.round_starts.len() == st.log.round_starts.len()
            && step(st, line).log.rounds == st.log.rounds
            || step(st, line).log.round_starts.len() == st.log.round_starts.len() + 1
            && step(st, line).log.rounds == (st.log.rounds + 1) as u32,
{
    reveal(step);
    match split_time_spec(line) {
        None => {},
        Some((at, b)) => {
            let body = line.skip(b);
            match crate::text::strip_prefix(body, "World triggered \""@) {
                Some(ev) => {},
                None => match actor_spec(body) {
                    None => {},
                    Some((who, k)) => lemma_player_step_rounds(st, at as i64, who, body.skip(k)),
                },
            }
        },
    }
}

/// Parsing more text never takes a round start away.
proof fn lemma_parse_text_round_starts(st: Parsing, s: Seq<char>)
    ensures
        parse_text(st, s).log.round_starts.len() >= st.log.round_starts.len(),
    decreases s.len(),
{
    reveal(parse_text);
    if s.len() > 0 {
        match find(s, seq!['\n']) {
            None => lemma_step_round_starts(st, s),
            Some(i) => {
                lemma_find_from_bounds(s, seq!['\n'], 0);
                let next = step(st, unterminated(s.take(i)));
                lemma_step_round_starts(st, unterminated(s.take(i)));
                lemma_parse_text_round_starts(next, s.skip(i + 1));
            },
        }
    }
}

proof fn lemma_parse_text_end(st: Parsing)
    ensures
        parse_text(st, Seq::empty()) == st,
{
    reveal(parse_text);
}

/// Every kill, chat line, round start, hit and map load of a raw log's
/// text, line by line (`str::lines`). The rounds are counted in a `u32`.
pub fn parse(text: &str) -> (r: RawLog)
    requires
        parse_spec(text@).round_starts.len() <= u32::MAX,
    ensures
        r@ == parse_spec(text@),
{
    let cs = crate::text::chars_of(text);
    let c = cs.as_slice();
    let mut p = Parser {
        log: RawLog {
            kills: Vec::new(),
            chat: Vec::new(),
            rounds: 0,
            round_starts: Vec::new(),
            damage: Vec::new(),
            map_loads: Vec::new(),
        },
        class: HashMap::new(),
        live: false,
    };
    assert(p@.log.kills =~= start().log.kills);
    assert(p@.log.chat =~= start().log.chat);
    assert(p@.log.map_loads =~= start().log.map_loads);
    assert(p@.class =~= start().class);
    assert(c@.skip(0) =~= c@);
    let nl: [char; 1] = ['\n'];
    assert(nl@ =~= seq!['\n']);
    let mut pos: usize = 0;
    while pos < c.len()
        invariant
            c@ == text@,
            parse_spec(c@).round_starts.len() <= u32::MAX,
            nl@ == seq!['\n'],
            pos <= c@.len(),
            p@.log.rounds == p@.log.round_starts.len(),
            times_ok(p@),
            parse_text(p@, c@.skip(pos as int)) == parse_text(start(), c@),
        decreases c@.len() - pos,
    {
        let ghost rest = c@.skip(pos as int);
        let ghost before = p@;
        proof {
            lemma_find_skip(c@, seq!['\n'], pos as int, 0);
            lemma_find_from_bounds(c@, seq!['\n'], pos as int);
            lemma_parse_text_line(p@, rest);
        }
        match find_at(c, nl.as_slice(), pos) {
            Some(i) => {
                let hi = if i > pos && c[i - 1] == '\r' {
                    i - 1
                } else {
                    i
                };
                let line = slice_of(c, pos, hi);
                assert(line@ == unterminated(rest.take(i - pos))) by {
                    if i > pos && c@[i - 1] == '\r' {
                        assert(line@ =~= rest.take(i - pos).drop_last());
                    } else {
                        assert(line@ =~= rest.take(i - pos));
                    }
                }
                proof {
                    lemma_parse_text_round_starts(step(p@, line@), rest.skip(i - pos + 1));
                }
                p.step(line.as_slice());
                assert(rest.skip(i - pos + 1) =~= c@.skip(i + 1));
                assert(find(rest, seq!['\n']) == Some(i - pos));
                assert(parse_text(before, rest) == parse_text(p@, c@.skip(i + 1)));
                pos = i + 1;
            },
            None => {
                let line = slice_of(c, pos, c.len());
                assert(line@ =~= rest);
                p.step(line.as_slice());
                assert(c@.skip(c@.len() as int) =~= Seq::<char>::empty());
                proof {
                    lemma_parse_text_end(p@);
                }
                pos = c.len();
            },
        }
    }
    proof {
        lemma_parse_text_end(p@);
        assert(c@.skip(pos as int) =~= Seq::<char>::empty());
    }
    p.log
}

// ---------------------------------------------------------------------------
// The zip logs.tf serves
// ---------------------------------------------------------------------------

/// Why a raw-log zip gave no text.
#[derive(Debug, Clone, Copy, PartialEq, Eq, Structural)]
pub enum UnzipError {
    /// The bytes are not a zip archive.
    NotZip,
    /// The archive holds no file.
    Empty,
    /// The first file could not be read out.
    Unreadable,
}

/// What the `zip` crate reads out of the first file of an archive.
pub uninterp spec fn zip_first_entry(bytes: Seq<u8>) -> Result<Seq<u8>, UnzipError>;

/// `zip::ZipArchive::new` over the bytes, `by_index(0)`, then reading that
/// file to its end: the file's bytes, or which of the three steps failed.
/// The result is taken to depend on the bytes alone.
#[verifier::external_body]
fn first_entry(bytes: &[u8]) -> (r: Result<Vec<u8>, UnzipError>)
    ensures
        match (r, zip_first_entry(bytes@)) {
            (Ok(v), Ok(w)) => v@ == w,
            (Err(e), Err(f)) => e == f,
            _ => false,
        },
{
    let Ok(mut archive) = zip::ZipArchive::new(std::io::Cursor::new(bytes)) else {
        return Err(UnzipError::NotZip);
    };
    let Ok(mut file) = archive.by_index(0) else {
        return Err(UnzipError::Empty);
    };
    let mut buf = Vec::new();
    match std::io::Read::read_to_end(&mut file, &mut buf) {
        Ok(_) => Ok(buf),
        Err(_) => Err(UnzipError::Unreadable),
    }
}

/// What `String::from_utf8_lossy` makes of bytes.
pub uninterp spec fn utf8_lossy(bytes: Seq<u8>) -> Seq<char>;

/// `String::from_utf8_lossy`: the text the bytes encode in UTF-8, each
/// invalid sequence replaced by U+FFFD. Only the ASCII case is stated here:
/// bytes below 128 are those characters.
#[verifier::external_body]
fn lossy_text(bytes: &[u8]) -> (s: String)
    ensures
        s@ == utf8_lossy(bytes@),
        (forall|i: int| 0 <= i < bytes@.len() ==> #[trigger] bytes@[i] < 128) ==> s@ == bytes@.map(
            |i: int, b: u8| b as char,
        ),
{
    String::from_utf8_lossy(bytes).into_owned()
}

pub open spec fn unzip_message(e: UnzipError) -> Seq<char> {
    match e {
        UnzipError::NotZip => "raw log is not a zip"@,
        UnzipError::Empty => "raw log zip is empty"@,
        UnzipError::Unreadable => "reading raw log from zip"@,
    }
}

/// The text of a raw log's file once unzipped: its bytes read as UTF-8
/// (player names are arbitrary bytes; a stray invalid one must not lose the
/// log), or why there is none.
pub fn entry_text(entry: Result<Vec<u8>, UnzipError>) -> (r: Result<String, String>)
    ensures
        match entry {
            Ok(b) => r matches Ok(s) && s@ == utf8_lossy(b@),
            Err(e) => r matches Err(m) && m@ == unzip_message(e),
        },
{
    match entry {
        Ok(buf) => Ok(lossy_text(buf.as_slice())),
        Err(e) => {
            let m = match e {
                UnzipError::NotZip => "raw log is not a zip",
                UnzipError::Empty => "raw log zip is empty",
                UnzipError::Unreadable => "reading raw log from zip",
            };
            Err(crate::text::string_of(lit(m).as_slice()))
        },
    }
}

/// The single `.log` inside a logs.tf raw-log zip, as text.
pub fn unzip(bytes: &[u8]) -> (r: Result<String, String>)
    ensures
        match zip_first_entry(bytes@) {
            Ok(b) => r matches Ok(s) && s@ == utf8_lossy(b),
            Err(e) => r matches Err(m) && m@ == unzip_message(e),
        },
{
    entry_text(first_entry(bytes))
}

} // verus!
