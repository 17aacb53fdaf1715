//! Placing logs on the real clock.
//!
//! logs.tf round start times are the game server's local clock written as if
//! it were UTC. The fix needs a true-UTC anchor for when the match ended (its
//! upload, or its last part's upload for a combined log). The offset is
//! `anchor - raw end` floored to a whole hour, which keeps the implied
//! upload delay non-negative.
use crate::maps::{map_base_chars, map_base_spec};
use crate::text::{chars_of, find, find_at, lower_s, lowered, same};
use vstd::prelude::*;

verus! {

/// A log's round span on the server's raw clock, plus its UTC anchor.
#[derive(Debug, Clone)]
pub struct LogClock {
    pub log_id: i64,
    /// Lowercased map, or `None` when the log recorded none.
    pub map: Option<String>,
    pub raw_start: i64,
    pub raw_end: i64,
    /// True UTC time the match ended, give or take the upload delay.
    pub anchor_utc: i64,
}

pub open spec fn offset_spec(anchor_utc: int, raw_end: int) -> int {
    ((anchor_utc - raw_end) / 3600) * 3600
}

/// The clock's numbers stay inside `i64` through every placement below.
pub open spec fn clock_fits(c: LogClock) -> bool {
    let off = offset_spec(c.anchor_utc as int, c.raw_end as int);
    &&& i64::MIN <= c.anchor_utc - c.raw_end <= i64::MAX
    &&& i64::MIN <= off
    &&& i64::MIN <= c.raw_start + off <= i64::MAX
    &&& i64::MIN <= c.raw_end + off <= i64::MAX
}

impl LogClock {
    /// Whole-hour offset from the server clock to UTC, rounded down.
    pub fn offset_s(&self) -> (r: i64)
        requires
            clock_fits(*self),
        ensures
            r == offset_spec(self.anchor_utc as int, self.raw_end as int),
            0 <= self.anchor_utc - self.raw_end - r < 3600,
    {
        let d = self.anchor_utc - self.raw_end;
        let q = crate::text::div_floor(d, 3600);
        proof {
            assert(q == d as int / 3600);
        }
        assert(q * 3600 <= d && d - 3600 < q * 3600) by (nonlinear_arith)
            requires
                q == d as int / 3600,
        ;
        q * 3600
    }

    pub fn start_utc(&self) -> (r: i64)
        requires
            clock_fits(*self),
        ensures
            r == self.raw_start + offset_spec(self.anchor_utc as int, self.raw_end as int),
    {
        self.raw_start + self.offset_s()
    }

    pub fn end_utc(&self) -> (r: i64)
        requires
            clock_fits(*self),
        ensures
            r == self.raw_end + offset_spec(self.anchor_utc as int, self.raw_end as int),
    {
        self.raw_end + self.offset_s()
    }

    /// Seconds between the match ending and the anchor: always under an hour.
    /// Large values mean the anchor is not really the match end.
    pub fn upload_delay_s(&self) -> (r: i64)
        requires
            clock_fits(*self),
        ensures
            r == self.anchor_utc - self.raw_end - offset_spec(
                self.anchor_utc as int,
                self.raw_end as int,
            ),
            0 <= r < 3600,
    {
        self.anchor_utc - self.raw_end - self.offset_s()
    }
}

/// How a demo's map and a log's map agree: `exact`, `label` (the demo's map
/// base appears in a multi-map label like "upward + steel"), or `nomap`
/// (the log has no map, so only time can link them).
pub open spec fn map_match_spec(demo_map: Seq<char>, log_map: Option<Seq<char>>) -> Option<Seq<char>> {
    match log_map {
        None => Some("nomap"@),
        Some(lm) => {
            let dm = lower_s(demo_map);
            let lm = lower_s(lm);
            if dm == lm {
                Some("exact"@)
            } else {
                let base = map_base_spec(dm);
                if base.len() > 0 && find(lm, base) is Some {
                    Some("label"@)
                } else {
                    None
                }
            }
        },
    }
}

pub open spec fn opt_view(m: Option<&str>) -> Option<Seq<char>> {
    match m {
        Some(x) => Some(x@),
        None => None,
    }
}

pub fn map_match(demo_map: &str, log_map: Option<&str>) -> (r: Option<&'static str>)
    ensures
        r matches Some(x) ==> map_match_spec(demo_map@, opt_view(log_map)) == Some(x@),
        r is None ==> map_match_spec(demo_map@, opt_view(log_map)) is None,
{
    let log_map = match log_map {
        None => return Some("nomap"),
        Some(m) => m,
    };
    let dc = chars_of(demo_map);
    let lc = chars_of(log_map);
    let dm = lowered(dc.as_slice());
    let lm = lowered(lc.as_slice());
    if same(dm.as_slice(), lm.as_slice()) {
        return Some("exact");
    }
    let base = map_base_chars(dm.as_slice());
    proof {
        assert(lower_s(lower_s(demo_map@)) == lower_s(demo_map@)) by {
            crate::text::lemma_lower_idempotent(demo_map@);
        }
    }
    if base.len() > 0 && find_at(lm.as_slice(), base.as_slice(), 0).is_some() {
        Some("label")
    } else {
        None
    }
}


/// The latest of the first `n` upload times.
pub open spec fn newest(ts: Seq<i64>, n: int) -> Option<i64>
    decreases n,
{
    if n <= 0 {
        None
    } else {
        match newest(ts, n - 1) {
            Some(m) => Some(
                if ts[n - 1] >= m {
                    ts[n - 1]
                } else {
                    m
                },
            ),
            None => Some(ts[n - 1]),
        }
    }
}

/// A log's clock and where its anchor came from: the upload of its last
/// per-round part when it has parts, else its own upload. A log with
/// neither cannot be placed. Its map is kept lowercased.
pub fn place_log(
    log_id: i64,
    map: Option<&str>,
    raw_start: i64,
    raw_end: i64,
    played_at: Option<i64>,
    part_times: &[i64],
) -> (r: Option<(LogClock, &'static str)>)
    ensures
        match (newest(part_times@, part_times@.len() as int), played_at) {
            (Some(t), _) => r matches Some((c, k)) && c.anchor_utc == t && k@ == "parts"@,
            (None, Some(t)) => r matches Some((c, k)) && c.anchor_utc == t && k@ == "upload"@,
            (None, None) => r is None,
        },
        r matches Some((c, _)) ==> c.log_id == log_id && c.raw_start == raw_start && c.raw_end == raw_end
            && crate::matchdata::opt_text(c.map) == (match map {
            Some(m) => Some(lower_s(m@)),
            None => None,
        }),
{
    let mut newest_t: Option<i64> = None;
    let mut i: usize = 0;
    while i < part_times.len()
        invariant
            i <= part_times@.len(),
            newest_t == newest(part_times@, i as int),
        decreases part_times@.len() - i,
    {
        let t = part_times[i];
        newest_t = match newest_t {
            Some(m) => Some(
                if t >= m {
                    t
                } else {
                    m
                },
            ),
            None => Some(t),
        };
        i += 1;
    }
    let (anchor, kind): (i64, &'static str) = match newest_t {
        Some(t) => (t, "parts"),
        None => match played_at {
            Some(t) => (t, "upload"),
            None => return None,
        },
    };
    let map = match map {
        Some(m) => {
            let c = chars_of(m);
            let l = lowered(c.as_slice());
            Some(crate::text::string_of(l.as_slice()))
        },
        None => None,
    };
    Some((LogClock { log_id, map, raw_start, raw_end, anchor_utc: anchor }, kind))
}

} // verus!
