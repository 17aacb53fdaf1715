//! Syncing: reading what a person pastes when they ask for one log by hand,
//! and the rules of the pass that downloads the logs.
use crate::text::{chars_of, digit, is_digit, parse_i64, parse_i64_of, rfind, rfind_in, slice_of, trim, trim_end_char, trim_bounds, trim_end_of};
use vstd::prelude::*;

verus! {

/// The leading run of decimal digits.
pub open spec fn leading_digits(s: Seq<char>) -> Seq<char>
    decreases s.len(),
{
    if s.len() > 0 && is_digit(s[0]) {
        seq![s[0]] + leading_digits(s.drop_first())
    } else {
        Seq::empty()
    }
}

/// What follows the last `/`, or all of it.
pub open spec fn last_segment(t: Seq<char>) -> Seq<char> {
    match rfind(t, seq!['/']) {
        Some(i) => t.skip(i + 1),
        None => t,
    }
}

/// A log id read out of whatever was pasted: a number, a logs.tf URL, or one
/// with the `#` anchor logs.tf puts on a player's row. Zero is no log.
pub open spec fn parse_log_id_spec(text: Seq<char>) -> Option<i64> {
    let t = trim_end_char(trim(text), '/');
    match parse_i64(leading_digits(last_segment(t))) {
        Some(v) => if v > 0 {
            Some(v as i64)
        } else {
            None
        },
        None => None,
    }
}

pub proof fn lemma_leading_digits(s: Seq<char>, k: int)
    requires
        0 <= k <= s.len(),
        forall|j: int| 0 <= j < k ==> is_digit(#[trigger] s[j]),
        k == s.len() || !is_digit(s[k]),
    ensures
        leading_digits(s) == s.take(k),
    decreases s.len(),
{
    if k > 0 {
        assert forall|j: int| 0 <= j < k - 1 implies is_digit(#[trigger] s.drop_first()[j]) by {
            assert(s.drop_first()[j] == s[j + 1]);
        }
        lemma_leading_digits(s.drop_first(), k - 1);
        assert(seq![s[0]] + s.drop_first().take(k - 1) =~= s.take(k));
    } else {
        assert(s.take(0) =~= Seq::<char>::empty());
    }
}

/// Read a log id out of whatever the person pasted.
pub fn parse_log_id(text: &str) -> (r: Option<i64>)
    ensures
        r == parse_log_id_spec(text@),
{
    let cs = chars_of(text);
    let (lo, hi) = trim_bounds(cs.as_slice());
    let trimmed = slice_of(cs.as_slice(), lo, hi);
    let end = trim_end_of(trimmed.as_slice(), 0, '/');
    let t = slice_of(trimmed.as_slice(), 0, end);
    assert(trimmed@.skip(0) =~= trimmed@);
    let slash: [char; 1] = ['/'];
    assert(slash@ =~= seq!['/']);
    let start = match rfind_in(t.as_slice(), slash.as_slice()) {
        Some(i) => {
            proof {
                crate::text::lemma_rfind_bounds(t@, seq!['/'], t@.len() - 1);
                assert(crate::text::is_at(t@, i as int, seq!['/']));
            }
            i + 1
        },
        None => 0,
    };
    let tail = slice_of(t.as_slice(), start, t.len());
    assert(tail@ == last_segment(t@));
    let mut k: usize = 0;
    while k < tail.len() && digit(tail[k])
        invariant
            k <= tail@.len(),
            forall|j: int| 0 <= j < k ==> is_digit(#[trigger] tail@[j]),
        decreases tail@.len() - k,
    {
        k += 1;
    }
    proof {
        lemma_leading_digits(tail@, k as int);
    }
    let digits = slice_of(tail.as_slice(), 0, k);
    match parse_i64_of(digits.as_slice()) {
        Some(v) => if v > 0 {
            Some(v)
        } else {
            None
        },
        None => None,
    }
}

// ---------------------------------------------------------------------------
// The fetch pass
// ---------------------------------------------------------------------------

/// A log that has failed this many times is left alone until retried by hand.
pub const MAX_FETCH_ATTEMPTS: i64 = 3;

/// Consecutive logs we could not connect about before concluding that the
/// server, not the log, is the problem.
pub const GIVE_UP_AFTER: usize = 3;

#[derive(Debug, Clone, Default)]
pub struct SyncOptions {
    /// Ignore the incremental cursor and re-index everything.
    pub full: bool,
    /// Stop after fetching this many logs. For testing and partial syncs.
    pub max_fetch: Option<usize>,
}

/// Progress as the UI and CLI see it.
#[derive(Debug, Clone)]
pub enum Progress {
    Indexing { source: &'static str, rows: usize },
    Indexed { trends_rows: usize, logstf_rows: usize, superseded: usize },
    Fetching { done: usize, total: usize, log_id: i64 },
    FetchFailed { log_id: i64, error: String },
    Reprocessing { done: usize, total: usize },
    Rating { done: usize, total: usize },
    /// ETF2L match fetches.
    Etf2l { done: usize, total: usize },
    /// The per-map logs combined logs were built from.
    Parts { done: usize, total: usize },
    /// Raw server logs from logs.tf.
    RawLogs { done: usize, total: usize },
    /// A source could not be reached. The sync carries on without it.
    SourceFailed { source: &'static str, error: String },
    /// Downloading stopped early because the server stopped answering. What
    /// is left waits for the next sync, unmarked.
    GaveUp { source: &'static str, done: usize, total: usize },
}

/// How fetching one log went.
#[derive(Debug, Clone, Copy, PartialEq, Eq, Structural)]
pub enum Fetched {
    /// Downloaded, stored and normalized.
    Stored,
    /// logs.tf could not be reached about it.
    Unreachable,
    /// logs.tf answered, badly.
    Failed,
}

/// What to do after one log.
#[derive(Debug, Clone, Copy, PartialEq, Eq, Structural)]
pub enum FetchAction {
    /// Rate the new log now and go on.
    Rate,
    /// Go on with the next log.
    Next,
    /// Record the failed attempt against the log, and go on.
    RecordFailure,
    /// Stop the pass: the rest waits for the next sync, unmarked.
    GiveUp,
}

/// The fetch pass so far: logs stored, logs failed, and how many logs in a
/// row could not be reached.
#[derive(Debug, Clone, Copy, Default, PartialEq, Eq, Structural)]
pub struct FetchPass {
    pub fetched: usize,
    pub failed: usize,
    pub unreachable_run: usize,
}

/// The pass after one log, and what to do next. A stored log is rated; a
/// log logs.tf answered badly about has earned a failed attempt; a log it
/// could not be reached about has not, so an outage spends nobody's
/// attempts, and [`GIVE_UP_AFTER`] of those in a row end the pass.
pub open spec fn step_spec(p: FetchPass, outcome: Fetched) -> (FetchPass, FetchAction) {
    match outcome {
        Fetched::Stored => (FetchPass { fetched: (p.fetched + 1) as usize, unreachable_run: 0, ..p }, FetchAction::Rate),
        Fetched::Unreachable => {
            let run = (p.unreachable_run + 1) as usize;
            (
                FetchPass { unreachable_run: run, ..p },
                if run >= GIVE_UP_AFTER {
                    FetchAction::GiveUp
                } else {
                    FetchAction::Next
                },
            )
        },
        Fetched::Failed => (
            FetchPass { failed: (p.failed + 1) as usize, unreachable_run: 0, ..p },
            FetchAction::RecordFailure,
        ),
    }
}

impl FetchPass {
    pub fn step(&mut self, outcome: Fetched) -> (a: FetchAction)
        requires
            old(self).fetched < usize::MAX,
            old(self).failed < usize::MAX,
            old(self).unreachable_run < usize::MAX,
        ensures
            (*final(self), a) == step_spec(*old(self), outcome),
    {
        match outcome {
            Fetched::Stored => {
                self.fetched = self.fetched + 1;
                self.unreachable_run = 0;
                FetchAction::Rate
            },
            Fetched::Unreachable => {
                self.unreachable_run = self.unreachable_run + 1;
                if self.unreachable_run >= GIVE_UP_AFTER {
                    FetchAction::GiveUp
                } else {
                    FetchAction::Next
                }
            },
            Fetched::Failed => {
                self.failed = self.failed + 1;
                self.unreachable_run = 0;
                FetchAction::RecordFailure
            },
        }
    }
}

/// A pass over `outcomes` from `p`, stopping at the first give-up.
pub open spec fn run_spec(p: FetchPass, outcomes: Seq<Fetched>) -> (FetchPass, bool)
    decreases outcomes.len(),
{
    if outcomes.len() == 0 {
        (p, false)
    } else {
        let (q, a) = step_spec(p, outcomes[0]);
        if a == FetchAction::GiveUp {
            (q, true)
        } else {
            run_spec(q, outcomes.drop_first())
        }
    }
}

/// However the pass goes, a log logs.tf could not be reached about is never
/// counted as failed: only bad answers are.
pub proof fn lemma_outage_spends_no_attempts(p: FetchPass, outcomes: Seq<Fetched>)
    requires
        forall|i: int| 0 <= i < outcomes.len() ==> #[trigger] outcomes[i] != Fetched::Failed,
    ensures
        run_spec(p, outcomes).0.failed == p.failed,
    decreases outcomes.len(),
{
    if outcomes.len() > 0 {
        assert(outcomes[0] != Fetched::Failed);
        let (q, a) = step_spec(p, outcomes[0]);
        if a != FetchAction::GiveUp {
            assert forall|i: int| 0 <= i < outcomes.drop_first().len() implies #[trigger] outcomes.drop_first()[i]
                != Fetched::Failed by {
                assert(outcomes.drop_first()[i] == outcomes[i + 1]);
            }
            lemma_outage_spends_no_attempts(q, outcomes.drop_first());
        }
    }
}

/// A pass that starts with no unreachable log behind it gives up exactly
/// at the [`GIVE_UP_AFTER`]-th unreachable log in a row, and not before.
pub proof fn lemma_gives_up_on_the_third(p: FetchPass)
    requires
        p.unreachable_run == 0,
    ensures
        step_spec(p, Fetched::Unreachable).1 == FetchAction::Next,
        step_spec(step_spec(p, Fetched::Unreachable).0, Fetched::Unreachable).1 == FetchAction::Next,
        step_spec(
            step_spec(step_spec(p, Fetched::Unreachable).0, Fetched::Unreachable).0,
            Fetched::Unreachable,
        ).1 == FetchAction::GiveUp,
{
}

/// A field both sources send as `""` for "no value": blank text is missing.
pub fn non_empty(s: &Option<String>) -> (r: Option<&str>)
    ensures
        r matches Some(x) ==> s matches Some(y) && x@ == y@ && trim(y@).len() > 0,
        r is None ==> (s matches Some(y) ==> trim(y@).len() == 0),
{
    match s {
        Some(x) => {
            let cs = chars_of(x.as_str());
            let (lo, hi) = trim_bounds(cs.as_slice());
            if lo < hi {
                Some(x.as_str())
            } else {
                None
            }
        },
        None => None,
    }
}

} // verus!
