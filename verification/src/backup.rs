//! Copies of the database, kept before anything large touches it: a copy
//! before every sync and rebuild, at most one an hour unless forced, and
//! the newest [`KEEP`] kept. The copying itself is file work for the caller;
//! the names, the timing and the pruning are here.
use crate::cli::{civil_from_days, pad_spec};
use vstd::prelude::*;

verus! {

/// How many copies to keep.
pub const KEEP: usize = 5;

/// A copy is not worth taking if the last one is this new.
pub const MIN_GAP_S: u64 = 60 * 60;

/// The times `chrono` writes as four-digit years: 0000-01-01 00:00:00 to
/// 9999-12-31 23:59:59 UTC.
pub const STAMP_MIN: i64 = -62_167_219_200;
pub const STAMP_MAX: i64 = 253_402_300_799;

#[derive(Debug, Clone)]
pub struct Backup {
    pub path: String,
    pub bytes: u64,
    /// Unix seconds.
    pub made_at: i64,
}

/// `YYYYMMDD-HHMMSS` in UTC.
pub open spec fn stamp_spec(unix: int) -> Seq<char> {
    let days = unix / 86_400;
    let secs = unix % 86_400;
    let (y, m, d) = civil_from_days(days);
    pad_spec(y, 4) + pad_spec(m, 2) + pad_spec(d, 2) + seq!['-'] + pad_spec(secs / 3600, 2)
        + pad_spec(secs % 3600 / 60, 2) + pad_spec(secs % 60, 2)
}

/// `chrono::DateTime::from_timestamp(unix, 0)` formatted with
/// `%Y%m%d-%H%M%S`, or `None` where `chrono` has no such time. For times
/// with a four-digit year the contract states both: there is a time, and it
/// is written as the UTC date and time, each part zero-padded. Further out
/// (where `chrono` writes a signed, longer year, or gives up) nothing is
/// stated.
#[verifier::external_body]
fn chrono_stamp(unix: i64) -> (r: Option<String>)
    ensures
        STAMP_MIN <= unix <= STAMP_MAX ==> r is Some && r.unwrap()@ == stamp_spec(unix as int),
{
    chrono::DateTime::from_timestamp(unix, 0).map(|dt| dt.format("%Y%m%d-%H%M%S").to_string())
}

/// `YYYYMMDD-HHMMSS` in UTC for a unix time; a time `chrono` cannot hold
/// reads as the epoch. Only the years 0 to 9999 are stated: beyond them
/// `chrono` writes a signed year of more digits.
pub fn stamp(unix: i64) -> (r: String)
    ensures
        STAMP_MIN <= unix <= STAMP_MAX ==> r@ == stamp_spec(unix as int),
{
    match chrono_stamp(unix) {
        Some(s) => s,
        None => "19700101-000000".to_string(),
    }
}

/// The file a copy taken at `now` goes to: `<stem>-YYYYMMDD-HHMMSS.sqlite3`,
/// so the folder sorts by hand as well as by date.
pub fn file_name(stem: &str, now: i64) -> (r: String)
    ensures
        STAMP_MIN <= now <= STAMP_MAX ==> r@ == stem@ + seq!['-'] + stamp_spec(now as int)
            + ".sqlite3"@,
{
    let mut out: Vec<char> = Vec::new();
    crate::text::push_str(&mut out, stem);
    out.push('-');
    let s = stamp(now);
    crate::text::push_str(&mut out, s.as_str());
    crate::text::push_str(&mut out, ".sqlite3");
    crate::text::string_of(out.as_slice())
}

/// `now - last`, held within `i64` (`i64::saturating_sub`).
pub open spec fn age(now: int, last: int) -> int {
    let d = now - last;
    if d > i64::MAX {
        i64::MAX as int
    } else if d < i64::MIN {
        i64::MIN as int
    } else {
        d
    }
}

/// Whether to take a copy: always when forced or when there is none, else
/// only when the newest is at least [`MIN_GAP_S`] old.
pub fn due(newest: Option<i64>, now: i64, force: bool) -> (r: bool)
    ensures
        r == (force || match newest {
            None => true,
            Some(last) => age(now as int, last as int) >= MIN_GAP_S,
        }),
{
    if !force {
        if let Some(last) = newest {
            let d: i128 = now as i128 - last as i128;
            let d: i64 = if d > i64::MAX as i128 {
                i64::MAX
            } else if d < i64::MIN as i128 {
                i64::MIN
            } else {
                d as i64
            };
            if d < MIN_GAP_S as i64 {
                return false;
            }
        }
    }
    true
}

/// The copies to remove once a new one is taken: all but the newest
/// [`KEEP`] - 1 of those there were (newest first), so that [`KEEP`] remain.
pub fn to_prune(existing: &[Backup]) -> (r: Vec<String>)
    ensures
        r@.len() == if existing@.len() > KEEP - 1 {
            existing@.len() - (KEEP - 1)
        } else {
            0
        },
        forall|i: int| 0 <= i < r@.len() ==> #[trigger] r@[i]@ == existing@[i + KEEP - 1].path@,
{
    let mut out: Vec<String> = Vec::new();
    let mut i: usize = KEEP - 1;
    while i < existing.len()
        invariant
            KEEP - 1 <= i,
            i <= existing@.len() || existing@.len() < KEEP - 1,
            existing@.len() < KEEP - 1 ==> i == KEEP - 1,
            out@.len() == if i > KEEP - 1 {
                i - (KEEP - 1)
            } else {
                0
            },
            forall|q: int| 0 <= q < out@.len() ==> #[trigger] out@[q]@ == existing@[q + KEEP - 1].path@,
        decreases existing@.len() - i,
    {
        out.push(existing[i].path.clone());
        i += 1;
    }
    out
}

/// How many of the copies in `ord` were made at or after `t`.
pub open spec fn count_newer(ord: Seq<int>, bs: Seq<Backup>, t: i64) -> nat
    decreases ord.len(),
{
    if ord.len() == 0 {
        0
    } else {
        count_newer(ord.drop_last(), bs, t) + if bs[ord.last()].made_at >= t {
            1nat
        } else {
            0nat
        }
    }
}

/// The first `n` copies newest first, copies made together in their given
/// order (a stable insertion sort).
pub open spec fn newest_order(bs: Seq<Backup>, n: int) -> Seq<int>
    decreases n,
{
    if n <= 0 {
        Seq::empty()
    } else {
        let ord = newest_order(bs, n - 1);
        ord.insert(count_newer(ord, bs, bs[n - 1].made_at) as int, n - 1)
    }
}

/// The copies, newest first.
pub fn newest_first(found: Vec<Backup>) -> (r: Vec<Backup>)
    ensures
        r@.len() == found@.len(),
        forall|k: int|
            0 <= k < r@.len() ==> {
                let j = newest_order(found@, found@.len() as int)[k];
                &&& (#[trigger] r@[k]).made_at == found@[j].made_at
                &&& r@[k].bytes == found@[j].bytes
                &&& r@[k].path@ == found@[j].path@
            },
{
    let mut ord: Vec<usize> = Vec::new();
    let mut i: usize = 0;
    while i < found.len()
        invariant
            i <= found@.len(),
            ord@.map_values(|x: usize| x as int) == newest_order(found@, i as int),
            ord@.len() == i,
            forall|q: int| 0 <= q < ord@.len() ==> #[trigger] ord@[q] < i,
        decreases found@.len() - i,
    {
        let t = found[i].made_at;
        let mut c: usize = 0;
        let mut n: usize = 0;
        while n < ord.len()
            invariant
                n <= ord@.len() == i,
                i < found@.len(),
                c <= n,
                t == found@[i as int].made_at,
                forall|q: int| 0 <= q < ord@.len() ==> #[trigger] ord@[q] < i,
                c == count_newer(ord@.map_values(|x: usize| x as int).take(n as int), found@, t),
            decreases ord@.len() - n,
        {
            assert(ord@.map_values(|x: usize| x as int).take(n + 1).drop_last() =~= ord@.map_values(
                |x: usize| x as int,
            ).take(n as int));
            if found[ord[n]].made_at >= t {
                c += 1;
            }
            n += 1;
        }
        assert(ord@.map_values(|x: usize| x as int).take(ord@.len() as int) =~= ord@.map_values(
            |x: usize| x as int,
        ));
        let ghost before = ord@;
        ord.insert(c, i);
        assert(ord@.map_values(|x: usize| x as int) =~= before.map_values(|x: usize| x as int).insert(
            c as int,
            i as int,
        ));
        i += 1;
        assert forall|q: int| 0 <= q < ord@.len() implies #[trigger] ord@[q] < i by {
            if q < c {
                assert(ord@[q] == before[q]);
            } else if q > c {
                assert(ord@[q] == before[q - 1]);
            }
        }
    }
    let ghost ov = ord@.map_values(|x: usize| x as int);
    let mut out: Vec<Backup> = Vec::new();
    let mut k: usize = 0;
    while k < ord.len()
        invariant
            k <= ord@.len() == found@.len(),
            ov == ord@.map_values(|x: usize| x as int),
            ov == newest_order(found@, found@.len() as int),
            forall|q: int| 0 <= q < ord@.len() ==> #[trigger] ord@[q] < found@.len(),
            out@.len() == k,
            forall|q: int|
                0 <= q < k ==> {
                    let j = ov[q];
                    &&& (#[trigger] out@[q]).made_at == found@[j].made_at
                    &&& out@[q].bytes == found@[j].bytes
                    &&& out@[q].path@ == found@[j].path@
                },
        decreases ord@.len() - k,
    {
        let b = &found[ord[k]];
        out.push(Backup { path: b.path.clone(), bytes: b.bytes, made_at: b.made_at });
        k += 1;
    }
    out
}

} // verus!
