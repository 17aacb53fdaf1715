//! Finding the SourceTV demo of a match demos.tf never got linked to: a
//! demo carries its map and the second it was stamped, and that is enough
//! to say which log it belongs to.
use crate::maps::{map_base_chars, map_base_spec};
use crate::text::chars_of;
use vstd::prelude::*;

verus! {

/// How far before a log a demo's stamp may be and still be the same match:
/// the recording starts when the map loads, before the match goes live.
pub const EARLY_S: i64 = 45 * 60;
/// How far after: a combined log's later maps' demos come long after it.
pub const LATE_S: i64 = 3 * 3600;

/// How a pass over demos.tf went.
#[derive(Debug, Clone, Copy, Default, PartialEq, Eq)]
pub struct Found {
    /// Demos demos.tf listed for this player.
    pub listed: usize,
    /// Logs that gained a demos.tf id they did not have.
    pub matched: usize,
}

/// One demo as demos.tf lists it.
#[derive(Debug, Clone)]
pub struct DemosTfMeta {
    pub id: i64,
    /// Where the file itself lives.
    pub url: String,
    /// e.g. `match-20260823-1956-pl_upward_f12.dem`
    pub name: String,
    pub map: Option<String>,
    /// Seconds.
    pub duration: Option<i64>,
    /// Upload time, unix seconds UTC.
    pub time: Option<i64>,
}

/// A log with no demo id yet: `(log_id, played_at, maps)`, the maps those
/// resolved for its rounds.
pub type Unlinked = (i64, i64, Vec<String>);

/// A demo as the matching reads it: id, time and map.
pub type DemoV = (i64, Option<i64>, Option<Seq<char>>);

/// A log as the matching reads it: id, time and maps.
pub type LogV = (i64, i64, Seq<Seq<char>>);

pub open spec fn demos_view(ds: Seq<DemosTfMeta>) -> Seq<DemoV> {
    ds.map_values(
        |d: DemosTfMeta|
            (
                d.id,
                d.time,
                match d.map {
                    Some(m) => Some(m@),
                    None => None,
                },
            ),
    )
}

pub open spec fn logs_view(ls: Seq<Unlinked>) -> Seq<LogV> {
    ls.map_values(|l: Unlinked| (l.0, l.1, l.2@.map_values(|m: String| m@)))
}

/// One of the log's maps has the demo's base.
pub open spec fn on_map(maps: Seq<Seq<char>>, base: Seq<char>) -> bool {
    exists|k: int| 0 <= k < maps.len() && #[trigger] map_base_spec(maps[k]) == base
}

/// The pairs a demo could make: with each log on its map whose time it
/// follows within the window, as `(|gap|, log, demo)`, logs in order.
pub open spec fn demo_pairs(ls: Seq<LogV>, d: DemoV, n: int) -> Seq<(int, i64, i64)>
    decreases n,
{
    if n <= 0 {
        Seq::empty()
    } else {
        let prev = demo_pairs(ls, d, n - 1);
        let l = ls[n - 1];
        match (d.1, d.2) {
            (Some(at), Some(m)) => {
                let gap = at - l.1;
                if on_map(l.2, map_base_spec(m)) && -EARLY_S <= gap <= LATE_S {
                    prev.push((if gap < 0 {
                        -gap
                    } else {
                        gap
                    }, l.0, d.0))
                } else {
                    prev
                }
            },
            _ => prev,
        }
    }
}

/// Every pair, demo by demo.
pub open spec fn all_pairs(ls: Seq<LogV>, ds: Seq<DemoV>, n: int) -> Seq<(int, i64, i64)>
    decreases n,
{
    if n <= 0 {
        Seq::empty()
    } else {
        all_pairs(ls, ds, n - 1) + demo_pairs(ls, ds[n - 1], ls.len() as int)
    }
}

/// `a` comes before `b`: closer first, then the smaller log id, then the
/// smaller demo id.
pub open spec fn before(a: (int, i64, i64), b: (int, i64, i64)) -> bool {
    a.0 < b.0 || (a.0 == b.0 && (a.1 < b.1 || (a.1 == b.1 && a.2 <= b.2)))
}

/// How many of `ps` come before `p`.
pub open spec fn count_before(ps: Seq<(int, i64, i64)>, p: (int, i64, i64)) -> nat
    decreases ps.len(),
{
    if ps.len() == 0 {
        0
    } else {
        count_before(ps.drop_last(), p) + if before(ps.last(), p) {
            1nat
        } else {
            0nat
        }
    }
}

/// The pairs in order (an insertion sort).
pub open spec fn sorted_pairs(ps: Seq<(int, i64, i64)>, n: int) -> Seq<(int, i64, i64)>
    decreases n,
{
    if n <= 0 {
        Seq::empty()
    } else {
        let s = sorted_pairs(ps, n - 1);
        s.insert(count_before(s, ps[n - 1]) as int, ps[n - 1])
    }
}

/// Taking the pairs in order, each whose log and demo are both still free.
pub open spec fn taken(ps: Seq<(int, i64, i64)>, n: int) -> Seq<(i64, i64)>
    decreases n,
{
    if n <= 0 {
        Seq::empty()
    } else {
        let out = taken(ps, n - 1);
        let (_, l, d) = ps[n - 1];
        if (forall|k: int| 0 <= k < out.len() ==> #[trigger] out[k].0 != l) && (forall|k: int|
            0 <= k < out.len() ==> #[trigger] out[k].1 != d) {
            out.push((l, d))
        } else {
            out
        }
    }
}

pub open spec fn match_spec(ls: Seq<LogV>, ds: Seq<DemoV>) -> Seq<(i64, i64)> {
    let ps = all_pairs(ls, ds, ds.len() as int);
    taken(sorted_pairs(ps, ps.len() as int), ps.len() as int)
}


fn base_of(m: &String) -> (r: Vec<char>)
    ensures
        r@ == map_base_spec(m@),
{
    let cs = chars_of(m.as_str());
    map_base_chars(cs.as_slice())
}

fn on_map_of(maps: &Vec<String>, base: &[char]) -> (b: bool)
    ensures
        b == on_map(maps@.map_values(|m: String| m@), base@),
{
    let ghost mv = maps@.map_values(|m: String| m@);
    let mut k: usize = 0;
    while k < maps.len()
        invariant
            k <= maps@.len(),
            mv == maps@.map_values(|m: String| m@),
            forall|j: int| 0 <= j < k ==> #[trigger] map_base_spec(mv[j]) != base@,
        decreases maps@.len() - k,
    {
        let b = base_of(&maps[k]);
        assert(mv[k as int] == maps@[k as int]@);
        if crate::text::same(b.as_slice(), base) {
            return true;
        }
        k += 1;
    }
    false
}

/// Which log each demo belongs to, by map and time: `(log_id, demo_id)`.
/// A demo may be stamped up to [`EARLY_S`] before its log and up to
/// [`LATE_S`] after. Where two logs could claim one demo, the closer in
/// time takes it, and no log takes two demos, nor a demo two logs.
pub fn match_demos(logs: &[Unlinked], demos: &[DemosTfMeta]) -> (r: Vec<(i64, i64)>)
    ensures
        r@ == match_spec(logs_view(logs@), demos_view(demos@)),
{
    let ghost ls = logs_view(logs@);
    let ghost ds = demos_view(demos@);
    let mut pairs: Vec<(i64, i64, i64)> = Vec::new();
    let mut n: usize = 0;
    while n < demos.len()
        invariant
            n <= demos@.len(),
            ls == logs_view(logs@),
            ds == demos_view(demos@),
            pairs@.map_values(|p: (i64, i64, i64)| (p.0 as int, p.1, p.2)) == all_pairs(ls, ds, n as int),
        decreases demos@.len() - n,
    {
        let d = &demos[n];
        assert(ds[n as int] == (d.id, d.time, match d.map { Some(m) => Some(m@), None => None }));
        let ghost head = pairs@;
        if let (Some(at), Some(map)) = (d.time, &d.map) {
            let base = base_of(map);
            let mut k: usize = 0;
            while k < logs.len()
                invariant
                    k <= logs@.len(),
                    ls == logs_view(logs@),
                    ds == demos_view(demos@),
                    n < demos@.len(),
                    ds[n as int] == (d.id, Some(at), Some(map@)),
                    base@ == map_base_spec(map@),
                    pairs@.map_values(|p: (i64, i64, i64)| (p.0 as int, p.1, p.2)) == head.map_values(
                        |p: (i64, i64, i64)| (p.0 as int, p.1, p.2),
                    ) + demo_pairs(ls, ds[n as int], k as int),
                decreases logs@.len() - k,
            {
                let l = &logs[k];
                assert(ls[k as int] == (l.0, l.1, l.2@.map_values(|m: String| m@)));
                if on_map_of(&l.2, base.as_slice()) {
                    let gap: i128 = at as i128 - l.1 as i128;
                    if -(EARLY_S as i128) <= gap && gap <= LATE_S as i128 {
                        let g: i64 = if gap < 0 {
                            (-gap) as i64
                        } else {
                            gap as i64
                        };
                        let ghost before_push = pairs@;
                        pairs.push((g, l.0, d.id));
                        assert(pairs@.map_values(|p: (i64, i64, i64)| (p.0 as int, p.1, p.2)) =~= before_push.map_values(
                            |p: (i64, i64, i64)| (p.0 as int, p.1, p.2),
                        ).push((g as int, l.0, d.id)));
                    }
                }
                k += 1;
            }
        } else {
            assert(demo_pairs(ls, ds[n as int], ls.len() as int) =~= Seq::empty()) by {
                lemma_no_pairs(ls, ds[n as int], ls.len() as int);
            }
        }
        assert(pairs@.map_values(|p: (i64, i64, i64)| (p.0 as int, p.1, p.2)) =~= all_pairs(ls, ds, n + 1));
        n += 1;
    }
    let ghost ps = pairs@.map_values(|p: (i64, i64, i64)| (p.0 as int, p.1, p.2));
    // Closest first.
    let mut sorted: Vec<(i64, i64, i64)> = Vec::new();
    let mut i: usize = 0;
    while i < pairs.len()
        invariant
            i <= pairs@.len(),
            ps == pairs@.map_values(|p: (i64, i64, i64)| (p.0 as int, p.1, p.2)),
            sorted@.map_values(|p: (i64, i64, i64)| (p.0 as int, p.1, p.2)) == sorted_pairs(ps, i as int),
            sorted@.len() == i,
        decreases pairs@.len() - i,
    {
        let p = pairs[i];
        assert(ps[i as int] == (p.0 as int, p.1, p.2));
        let ghost sv = sorted@.map_values(|p: (i64, i64, i64)| (p.0 as int, p.1, p.2));
        let mut c: usize = 0;
        let mut j: usize = 0;
        while j < sorted.len()
            invariant
                j <= sorted@.len(),
                c <= j,
                sv == sorted@.map_values(|p: (i64, i64, i64)| (p.0 as int, p.1, p.2)),
                c == count_before(sv.take(j as int), (p.0 as int, p.1, p.2)),
            decreases sorted@.len() - j,
        {
            assert(sv.take(j + 1).drop_last() =~= sv.take(j as int));
            let q = sorted[j];
            assert(sv[j as int] == (q.0 as int, q.1, q.2));
            if q.0 < p.0 || (q.0 == p.0 && (q.1 < p.1 || (q.1 == p.1 && q.2 <= p.2))) {
                c += 1;
            }
            j += 1;
        }
        assert(sv.take(sv.len() as int) =~= sv);
        sorted.insert(c, p);
        assert(sorted@.map_values(|p: (i64, i64, i64)| (p.0 as int, p.1, p.2)) =~= sv.insert(
            c as int,
            (p.0 as int, p.1, p.2),
        ));
        i += 1;
    }
    // Then each log and each demo is spoken for once.
    let ghost sp = sorted@.map_values(|p: (i64, i64, i64)| (p.0 as int, p.1, p.2));
    assert(pairs@.len() == ps.len());
    let mut out: Vec<(i64, i64)> = Vec::new();
    let mut i: usize = 0;
    while i < sorted.len()
        invariant
            i <= sorted@.len(),
            sp == sorted@.map_values(|p: (i64, i64, i64)| (p.0 as int, p.1, p.2)),
            out@ == taken(sp, i as int),
        decreases sorted@.len() - i,
    {
        let (_, log_id, demo_id) = sorted[i];
        assert(sp[i as int] == (sorted@[i as int].0 as int, log_id, demo_id));
        let mut free = true;
        let mut k: usize = 0;
        while k < out.len()
            invariant
                k <= out@.len(),
                free ==> forall|q: int|
                    0 <= q < k ==> !((#[trigger] out@[q]).0 == log_id || out@[q].1 == demo_id),
                !free ==> exists|q: int|
                    0 <= q < out@.len() && ((#[trigger] out@[q]).0 == log_id || out@[q].1 == demo_id),
            decreases out@.len() - k,
        {
            if out[k].0 == log_id || out[k].1 == demo_id {
                free = false;
            }
            k += 1;
        }
        if free {
            out.push((log_id, demo_id));
        } else {
            let ghost q = choose|q: int|
                0 <= q < out@.len() && ((#[trigger] out@[q]).0 == log_id || out@[q].1 == demo_id);
            assert(out@[q].0 == log_id || out@[q].1 == demo_id);
        }
        i += 1;
    }
    out
}

proof fn lemma_no_pairs(ls: Seq<LogV>, d: DemoV, n: int)
    requires
        d.1 is None || d.2 is None,
    ensures
        demo_pairs(ls, d, n) == Seq::<(int, i64, i64)>::empty(),
    decreases n,
{
    if n > 0 {
        lemma_no_pairs(ls, d, n - 1);
    }
}

proof fn lemma_taken_once(ps: Seq<(int, i64, i64)>, n: int)
    ensures
        forall|i: int, j: int|
            0 <= i < j < taken(ps, n).len() ==> (#[trigger] taken(ps, n)[i]).0 != (
            #[trigger] taken(ps, n)[j]).0 && taken(ps, n)[i].1 != taken(ps, n)[j].1,
    decreases n,
{
    if n > 0 {
        lemma_taken_once(ps, n - 1);
        let out = taken(ps, n - 1);
        let (_, l, d) = ps[n - 1];
        if (forall|k: int| 0 <= k < out.len() ==> #[trigger] out[k].0 != l) && (forall|k: int|
            0 <= k < out.len() ==> #[trigger] out[k].1 != d) {
            let t = out.push((l, d));
            assert(taken(ps, n) == t);
            assert forall|i: int, j: int| 0 <= i < j < t.len() implies (#[trigger] t[i]).0 != (
            #[trigger] t[j]).0 && t[i].1 != t[j].1 by {
                if j == out.len() {
                    assert(t[i] == out[i]);
                } else {
                    assert(t[i] == out[i] && t[j] == out[j]);
                }
            }
        } else {
            assert(taken(ps, n) == out);
        }
    }
}

/// No log takes two demos, and no demo goes to two logs.
pub proof fn lemma_each_log_and_demo_once(ls: Seq<LogV>, ds: Seq<DemoV>)
    ensures
        forall|i: int, j: int|
            0 <= i < j < match_spec(ls, ds).len() ==> (#[trigger] match_spec(ls, ds)[i]).0 != (
            #[trigger] match_spec(ls, ds)[j]).0 && match_spec(ls, ds)[i].1 != match_spec(ls, ds)[j].1,
{
    let ps = all_pairs(ls, ds, ds.len() as int);
    lemma_taken_once(sorted_pairs(ps, ps.len() as int), ps.len() as int);
}

} // verus!
