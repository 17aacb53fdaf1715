//! Normalized match data: the shape a logs.tf log takes once parsed.
use crate::steamid::SteamId;
use crate::text::{chars_of, same};
use crate::tfclass::TfClass;
use vstd::prelude::*;

verus! {

#[derive(Debug, Clone, Copy, PartialEq, Eq, Structural, Hash)]
pub enum Team {
    Red,
    Blue,
}

/// The team a colour name stands for, in the spellings logs use.
pub open spec fn team_named(s: Seq<char>) -> Option<Team> {
    if s == "Red"@ || s == "red"@ || s == "RED"@ {
        Some(Team::Red)
    } else if s == "Blue"@ || s == "blue"@ || s == "BLU"@ || s == "BLUE"@ {
        Some(Team::Blue)
    } else {
        None
    }
}

pub open spec fn team_text(t: Team) -> Seq<char> {
    match t {
        Team::Red => "Red"@,
        Team::Blue => "Blue"@,
    }
}

pub open spec fn other_team(t: Team) -> Team {
    match t {
        Team::Red => Team::Blue,
        Team::Blue => Team::Red,
    }
}

fn is(n: &[char], lit: &str) -> (b: bool)
    ensures
        b == (n@ == lit@),
{
    let v = chars_of(lit);
    same(n, v.as_slice())
}

impl Team {
    pub fn parse(s: &str) -> (r: Option<Team>)
        ensures
            r == team_named(s@),
    {
        let cs = chars_of(s);
        Self::parse_chars(cs.as_slice())
    }

    pub fn parse_chars(n: &[char]) -> (r: Option<Team>)
        ensures
            r == team_named(n@),
    {
        if is(n, "Red") || is(n, "red") || is(n, "RED") {
            Some(Team::Red)
        } else if is(n, "Blue") || is(n, "blue") || is(n, "BLU") || is(n, "BLUE") {
            Some(Team::Blue)
        } else {
            None
        }
    }

    pub fn as_str(self) -> (r: &'static str)
        ensures
            r@ == team_text(self),
    {
        match self {
            Team::Red => "Red",
            Team::Blue => "Blue",
        }
    }

    pub fn other(self) -> (r: Team)
        ensures
            r == other_team(self),
    {
        match self {
            Team::Red => Team::Blue,
            Team::Blue => Team::Red,
        }
    }
}

/// Swapping sides twice is no swap.
pub proof fn lemma_other_involution(t: Team)
    ensures
        other_team(other_team(t)) == t,
        other_team(t) != t,
{
}

/// Which stats a log actually recorded. A `false` flag means the matching
/// field is missing, not zero.
#[derive(Debug, Clone, Copy, Default, PartialEq, Eq)]
pub struct LogFlags {
    pub real_damage: bool,
    pub accuracy: bool,
    pub hs: bool,
    pub hs_hit: bool,
    pub bs: bool,
    pub cp: bool,
    pub dt: bool,
    pub airshots: bool,
    pub hr: bool,
}

#[derive(Debug, Clone)]
pub struct NormalizedLog {
    pub log_id: i64,
    pub title: Option<String>,
    pub map: Option<String>,
    pub played_at: Option<i64>,
    pub duration_s: i64,
    pub red_score: i64,
    pub blue_score: i64,
    pub flags: LogFlags,
    pub players: Vec<PlayerLine>,
    pub rounds: Vec<RoundLine>,
}

#[derive(Debug, Clone, Default)]
pub struct PlayerStats {
    pub kills: i64,
    pub deaths: i64,
    pub assists: i64,
    pub suicides: i64,
    pub dmg: i64,
    pub dmg_real: i64,
    pub dt: i64,
    pub dt_real: i64,
    pub hr: i64,
    pub heal: i64,
    pub ubers: i64,
    pub drops: i64,
    pub headshots: i64,
    pub headshots_hit: i64,
    pub backstabs: i64,
    pub medkits: i64,
    pub medkits_hp: i64,
    pub sentries: i64,
    pub cpc: i64,
    pub ic: i64,
    pub lks: i64,
    pub airshots: i64,
}

#[derive(Debug, Clone)]
pub struct PlayerLine {
    pub id: SteamId,
    pub name: Option<String>,
    pub team: Team,
    pub stats: PlayerStats,
    pub classes: Vec<ClassLine>,
    pub vs: Vec<VsLine>,
}

#[derive(Debug, Clone, Copy)]
pub struct ClassLine {
    pub class: TfClass,
    pub time_s: i64,
    pub kills: i64,
    pub assists: i64,
    pub deaths: i64,
    pub dmg: i64,
}

/// One row of the class-vs-class breakdown for a single player.
#[derive(Debug, Clone, Copy)]
pub struct VsLine {
    pub other_class: TfClass,
    pub kills: i64,
    pub deaths: i64,
    pub assists: i64,
}

#[derive(Debug, Clone)]
pub struct RoundLine {
    pub round_num: i64,
    pub start_time: Option<i64>,
    pub length_s: Option<i64>,
    pub winner: Option<Team>,
    pub firstcap: Option<Team>,
    pub red: RoundTeam,
    pub blue: RoundTeam,
    pub events: Vec<EventLine>,
    /// Whether the teams wore each other's colours this round. Everything
    /// else in the line is already given in the teams' stable colours.
    pub colours_swapped: bool,
}

#[derive(Debug, Clone, Copy, Default)]
pub struct RoundTeam {
    pub kills: Option<i64>,
    pub dmg: Option<i64>,
    pub ubers: Option<i64>,
}

#[derive(Debug, Clone)]
pub struct EventLine {
    pub at_s: i64,
    pub kind: String,
    pub team: Option<Team>,
    pub player: Option<SteamId>,
    pub killer: Option<SteamId>,
    pub medigun: Option<String>,
    pub point: Option<i64>,
}

/// A text field as its characters.
pub open spec fn opt_text(o: Option<String>) -> Option<Seq<char>> {
    match o {
        Some(s) => Some(s@),
        None => None,
    }
}

/// An account as its 32-bit id.
pub open spec fn opt_id(o: Option<SteamId>) -> Option<u32> {
    match o {
        Some(x) => Some(x@),
        None => None,
    }
}

/// A player line as plain values.
pub struct PlayerView {
    pub id: u32,
    pub name: Option<Seq<char>>,
    pub team: Team,
    pub stats: PlayerStats,
    pub classes: Seq<ClassLine>,
    pub vs: Seq<VsLine>,
}

impl View for PlayerLine {
    type V = PlayerView;

    open spec fn view(&self) -> PlayerView {
        PlayerView {
            id: self.id@,
            name: opt_text(self.name),
            team: self.team,
            stats: self.stats,
            classes: self.classes@,
            vs: self.vs@,
        }
    }
}

/// An event line as plain values.
pub struct EventView {
    pub at_s: i64,
    pub kind: Seq<char>,
    pub team: Option<Team>,
    pub player: Option<u32>,
    pub killer: Option<u32>,
    pub medigun: Option<Seq<char>>,
    pub point: Option<i64>,
}

impl View for EventLine {
    type V = EventView;

    open spec fn view(&self) -> EventView {
        EventView {
            at_s: self.at_s,
            kind: self.kind@,
            team: self.team,
            player: opt_id(self.player),
            killer: opt_id(self.killer),
            medigun: opt_text(self.medigun),
            point: self.point,
        }
    }
}

/// A round line as plain values.
pub struct RoundView {
    pub round_num: i64,
    pub start_time: Option<i64>,
    pub length_s: Option<i64>,
    pub winner: Option<Team>,
    pub firstcap: Option<Team>,
    pub red: RoundTeam,
    pub blue: RoundTeam,
    pub events: Seq<EventView>,
    pub colours_swapped: bool,
}

impl View for RoundLine {
    type V = RoundView;

    open spec fn view(&self) -> RoundView {
        RoundView {
            round_num: self.round_num,
            start_time: self.start_time,
            length_s: self.length_s,
            winner: self.winner,
            firstcap: self.firstcap,
            red: self.red,
            blue: self.blue,
            events: self.events@.map_values(|e: EventLine| e@),
            colours_swapped: self.colours_swapped,
        }
    }
}

/// Seconds played across these class lines.
pub open spec fn time_sum(cs: Seq<ClassLine>) -> int
    decreases cs.len(),
{
    if cs.len() == 0 {
        0
    } else {
        time_sum(cs.drop_last()) + cs.last().time_s
    }
}

/// The index of the class played longest among the first `n` lines, counting
/// only lines with time on them; on a tie, the later line.
pub open spec fn longest(cs: Seq<ClassLine>, n: int) -> Option<int>
    decreases n,
{
    if n <= 0 {
        None
    } else {
        let prev = longest(cs, n - 1);
        if cs[n - 1].time_s > 0 && (prev is None || cs[n - 1].time_s >= cs[prev->0].time_s) {
            Some(n - 1)
        } else {
            prev
        }
    }
}

impl PlayerLine {
    /// Seconds played over all classes.
    pub fn total_time(&self) -> (r: i64)
        requires
            forall|k: int|
                0 <= k <= self.classes@.len() ==> i64::MIN <= #[trigger] time_sum(
                    self.classes@.take(k),
                ) <= i64::MAX,
        ensures
            r == time_sum(self.classes@),
    {
        let mut total: i64 = 0;
        let mut i: usize = 0;
        while i < self.classes.len()
            invariant
                i <= self.classes@.len(),
                total == time_sum(self.classes@.take(i as int)),
                forall|k: int|
                    0 <= k <= self.classes@.len() ==> i64::MIN <= #[trigger] time_sum(
                        self.classes@.take(k),
                    ) <= i64::MAX,
            decreases self.classes@.len() - i,
        {
            assert(self.classes@.take(i + 1).drop_last() =~= self.classes@.take(i as int));
            assert(time_sum(self.classes@.take(i + 1)) == total + self.classes@[i as int].time_s);
            total = total + self.classes[i].time_s;
            i += 1;
        }
        assert(self.classes@.take(self.classes@.len() as int) =~= self.classes@);
        total
    }

    /// The class played longest. `None` when the log recorded no class time.
    pub fn main_class(&self) -> (r: Option<TfClass>)
        ensures
            r == (match longest(self.classes@, self.classes@.len() as int) {
                Some(i) => Some(self.classes@[i].class),
                None => None,
            }),
    {
        let mut best: Option<usize> = None;
        let mut i: usize = 0;
        assert forall|n: int| 0 <= n <= self.classes@.len() implies (#[trigger] longest(self.classes@, n) matches Some(k) ==> 0 <= k < n) by {
            lemma_longest_in_range(self.classes@, n);
        }
        while i < self.classes.len()
            invariant
                i <= self.classes@.len(),
                best matches Some(b) ==> longest(self.classes@, i as int) == Some(b as int),
                best is None ==> longest(self.classes@, i as int) is None,
                forall|n: int| 0 <= n <= self.classes@.len() ==> (#[trigger] longest(self.classes@, n) matches Some(k) ==> 0 <= k < n),
            decreases self.classes@.len() - i,
        {
            let t = self.classes[i].time_s;
            let better = match best {
                None => t > 0,
                Some(b) => t > 0 && t >= self.classes[b].time_s,
            };
            if better {
                best = Some(i);
            }
            i += 1;
        }
        match best {
            Some(b) => Some(self.classes[b].class),
            None => None,
        }
    }
}

/// What `longest` picks lies among the lines it looked at.
pub proof fn lemma_longest_in_range(cs: Seq<ClassLine>, n: int)
    ensures
        longest(cs, n) matches Some(k) ==> 0 <= k < n,
    decreases n,
{
    if n > 0 {
        lemma_longest_in_range(cs, n - 1);
    }
}

/// Format as trends.tf names it, plus what our own classifier can produce.
#[derive(Debug, Clone, Copy, PartialEq, Eq, Structural)]
pub enum Format {
    Highlander,
    Sixes,
    Prolander,
    Other,
}

pub open spec fn format_text(f: Format) -> Seq<char> {
    match f {
        Format::Highlander => "highlander"@,
        Format::Sixes => "sixes"@,
        Format::Prolander => "prolander"@,
        Format::Other => "other"@,
    }
}

pub open spec fn format_named(s: Seq<char>) -> Format {
    if s == "highlander"@ {
        Format::Highlander
    } else if s == "sixes"@ {
        Format::Sixes
    } else if s == "prolander"@ {
        Format::Prolander
    } else {
        Format::Other
    }
}

impl Format {
    pub fn as_str(self) -> (r: &'static str)
        ensures
            r@ == format_text(self),
    {
        match self {
            Format::Highlander => "highlander",
            Format::Sixes => "sixes",
            Format::Prolander => "prolander",
            Format::Other => "other",
        }
    }

    pub fn parse(s: &str) -> (r: Format)
        ensures
            r == format_named(s@),
    {
        let cs = chars_of(s);
        let n = cs.as_slice();
        if is(n, "highlander") {
            Format::Highlander
        } else if is(n, "sixes") {
            Format::Sixes
        } else if is(n, "prolander") {
            Format::Prolander
        } else {
            Format::Other
        }
    }
}

/// Every format reads back from the name it is written as.
pub proof fn lemma_format_round_trip(f: Format)
    ensures
        format_named(format_text(f)) == f,
{
    reveal_strlit("highlander");
    reveal_strlit("sixes");
    reveal_strlit("prolander");
    reveal_strlit("other");
    assert("highlander"@.len() == 10);
    assert("sixes"@.len() == 5);
    assert("prolander"@.len() == 9);
    assert("other"@.len() == 5);
    assert("other"@[0] != "sixes"@[0]);
}

/// Every team reads back from the name it is written as.
pub proof fn lemma_team_round_trip(t: Team)
    ensures
        team_named(team_text(t)) == Some(t),
{
    reveal_strlit("Red");
    reveal_strlit("red");
    reveal_strlit("RED");
    reveal_strlit("Blue");
    assert("Red"@.len() == 3);
    assert("red"@.len() == 3);
    assert("RED"@.len() == 3);
    assert("Blue"@.len() == 4);
}

} // verus!
