//! Seasons, from the officials stored for the owner.
//!
//! Every competition of one season (its divisions, group stages, playoffs)
//! groups under the season's number, and anything else under its name
//! before the colon ("Highlander Winter 2024: Low Playoffs" is "Winter
//! 2024"). A season runs from six days before its first official, which
//! takes in the week of scrims leading up to it, to the day after its last.
//! The newest season stays open up to today while its last official is
//! under [`ONGOING_DAYS`] old.
use crate::rawlog::{byte_len, lemma_byte_len_step, utf8_width};
use crate::text::{
    alnum, chars_of, digit, find, find_at, has_prefix, is_alnum, is_digit, lemma_find_from_bounds,
    lower, lower_char, slice_of, starts_with, string_of, trim, trimmed,
};
use vstd::prelude::*;

verus! {

pub const DAY: i64 = 86_400;
/// Scrims in the week before week one belong to the season.
pub const LEAD_IN_DAYS: i64 = 6;
/// A season whose last official is this recent may still be running.
pub const ONGOING_DAYS: i64 = 30;

/// An official the owner played, as the seasons need it.
#[derive(Debug, Clone)]
pub struct SeasonOfficial {
    pub competition: String,
    pub division: Option<String>,
    pub time: i64,
}

#[derive(Debug, Clone, PartialEq)]
pub struct Season {
    /// Stable id: `s33`, or a slug of the name.
    pub key: String,
    /// "Season 33 (Spring 2025)", "Winter 2024", "AFA 2025".
    pub name: String,
    /// Unix seconds, inclusive.
    pub from: i64,
    pub to: i64,
    pub officials: usize,
    pub divisions: Vec<String>,
    /// Still being played: `to` is now.
    pub ongoing: bool,
}

// ---------------------------------------------------------------------------
// Names
// ---------------------------------------------------------------------------

/// `str::trim_start_matches` with a text pattern.
pub open spec fn strip_all(s: Seq<char>, p: Seq<char>) -> Seq<char>
    decreases s.len(),
{
    if p.len() > 0 && starts_with(s, p) {
        strip_all(s.skip(p.len() as int), p)
    } else {
        s
    }
}

/// The leading ASCII digits.
pub open spec fn digits_of(s: Seq<char>) -> Seq<char>
    decreases s.len(),
{
    if s.len() > 0 && is_digit(s[0]) {
        seq![s[0]] + digits_of(s.drop_first())
    } else {
        Seq::empty()
    }
}

/// The text before the first colon, trimmed.
pub open spec fn head_of(s: Seq<char>) -> Seq<char> {
    match find(s, seq![':']) {
        Some(i) => trim(s.take(i)),
        None => trim(s),
    }
}

/// A name as a key: lowercase, anything but ASCII letters and digits a dash.
pub open spec fn slug(s: Seq<char>) -> Seq<char> {
    s.map_values(
        |c: char|
            if is_alnum(lower(c)) {
                lower(c)
            } else {
                '-'
            },
    )
}

/// `(key, display name)` for a competition name.
pub open spec fn season_of_spec(competition: Seq<char>) -> (Seq<char>, Seq<char>) {
    let name = trim(strip_all(trim(competition), "Highlander"@));
    let head = head_of(name);
    let numbered = match crate::text::strip_prefix(name, "Season "@) {
        Some(rest) => digits_of(rest).len() > 0,
        None => false,
    };
    if numbered {
        let num = digits_of(name.skip(7));
        let label = if head.contains('(') {
            head
        } else {
            "Season "@ + num
        };
        (seq!['s'] + num, label)
    } else {
        (slug(head), head)
    }
}

fn strip_all_of(s: &[char], p: &str) -> (r: Vec<char>)
    ensures
        r@ == strip_all(s@, p@),
{
    let pc = chars_of(p);
    let mut lo: usize = 0;
    assert(s@.skip(0) =~= s@);
    if pc.len() == 0 {
        return slice_of(s, 0, s.len());
    }
    loop
        invariant
            lo <= s@.len(),
            pc@ == p@,
            pc@.len() > 0,
            strip_all(s@, p@) == strip_all(s@.skip(lo as int), p@),
        decreases s@.len() - lo,
    {
        let rest = slice_of(s, lo, s.len());
        assert(rest@ =~= s@.skip(lo as int));
        if !has_prefix(rest.as_slice(), pc.as_slice()) {
            return rest;
        }
        assert(s@.skip(lo as int).skip(pc@.len() as int) =~= s@.skip(lo + pc@.len()));
        lo = lo + pc.len();
    }
}

fn head_of_chars(s: &[char]) -> (r: Vec<char>)
    ensures
        r@ == head_of(s@),
{
    let colon: [char; 1] = [':'];
    assert(colon@ =~= seq![':']);
    match find_at(s, colon.as_slice(), 0) {
        Some(i) => {
            proof {
                lemma_find_from_bounds(s@, seq![':'], 0);
            }
            let t = slice_of(s, 0, i);
            assert(t@ =~= s@.take(i as int));
            trimmed(t.as_slice())
        },
        None => trimmed(s),
    }
}

fn digits_prefix(s: &[char]) -> (r: Vec<char>)
    ensures
        r@ == digits_of(s@),
{
    let mut k: usize = 0;
    assert(s@.take(0) + s@.skip(0) =~= s@);
    assert(s@.take(0) + digits_of(s@.skip(0)) =~= digits_of(s@));
    while k < s.len() && digit(s[k])
        invariant
            k <= s@.len(),
            forall|j: int| 0 <= j < k ==> is_digit(#[trigger] s@[j]),
            digits_of(s@) == s@.take(k as int) + digits_of(s@.skip(k as int)),
        decreases s@.len() - k,
    {
        assert(s@.skip(k as int).drop_first() =~= s@.skip(k + 1));
        assert(s@.take(k + 1) =~= s@.take(k as int) + seq![s@[k as int]]);
        k += 1;
    }
    assert(digits_of(s@.skip(k as int)) =~= Seq::<char>::empty());
    assert(s@.take(k as int) + Seq::<char>::empty() =~= s@.take(k as int));
    slice_of(s, 0, k)
}

fn has_paren(s: &[char]) -> (b: bool)
    ensures
        b == s@.contains('('),
{
    let mut i: usize = 0;
    while i < s.len()
        invariant
            i <= s@.len(),
            forall|j: int| 0 <= j < i ==> s@[j] != '(',
        decreases s@.len() - i,
    {
        if s[i] == '(' {
            return true;
        }
        i += 1;
    }
    false
}

fn slug_of(s: &[char]) -> (r: Vec<char>)
    ensures
        r@ == slug(s@),
{
    let mut out: Vec<char> = Vec::new();
    let mut i: usize = 0;
    while i < s.len()
        invariant
            i <= s@.len(),
            out@ == slug(s@.take(i as int)),
        decreases s@.len() - i,
    {
        let c = lower_char(s[i]);
        out.push(if alnum(c) {
            c
        } else {
            '-'
        });
        i += 1;
        assert(out@ =~= slug(s@.take(i as int)));
    }
    assert(s@.take(s@.len() as int) =~= s@);
    out
}

/// `(key, display name)` for a competition name: `s33` and "Season 33
/// (Spring 2025)" for a numbered season, else a slug of the name before the
/// colon and that name.
pub fn season_of(competition: &str) -> (r: (String, String))
    ensures
        (r.0@, r.1@) == season_of_spec(competition@),
{
    let cs = chars_of(competition);
    let t = trimmed(cs.as_slice());
    let s = strip_all_of(t.as_slice(), "Highlander");
    let name = trimmed(s.as_slice());
    let head = head_of_chars(name.as_slice());
    let pre = chars_of("Season ");
    proof {
        reveal_strlit("Season ");
    }
    if has_prefix(name.as_slice(), pre.as_slice()) {
        let rest = slice_of(name.as_slice(), 7, name.len());
        assert(rest@ =~= name@.skip(7));
        let num = digits_prefix(rest.as_slice());
        if num.len() > 0 {
            let label = if has_paren(head.as_slice()) {
                string_of(head.as_slice())
            } else {
                let mut l = pre.clone();
                crate::text::push_all(&mut l, num.as_slice());
                string_of(l.as_slice())
            };
            let mut key: Vec<char> = Vec::new();
            key.push('s');
            crate::text::push_all(&mut key, num.as_slice());
            assert(key@ =~= seq!['s'] + num@);
            return (string_of(key.as_slice()), label);
        }
    }
    let key = slug_of(head.as_slice());
    (string_of(key.as_slice()), string_of(head.as_slice()))
}

// ---------------------------------------------------------------------------
// Grouping
// ---------------------------------------------------------------------------

pub struct OfficialV {
    pub competition: Seq<char>,
    pub division: Option<Seq<char>>,
    pub time: i64,
}

impl View for SeasonOfficial {
    type V = OfficialV;

    open spec fn view(&self) -> OfficialV {
        OfficialV {
            competition: self.competition@,
            division: match self.division {
                Some(d) => Some(d@),
                None => None,
            },
            time: self.time,
        }
    }
}

/// A season while its officials are gathered: the first and last official's
/// times beside it.
pub struct SeasonAcc {
    pub key: Seq<char>,
    pub name: Seq<char>,
    pub officials: nat,
    pub divisions: Seq<Seq<char>>,
    pub first: int,
    pub last: int,
}

/// The first season gathered under `key`.
pub open spec fn acc_index(acc: Seq<SeasonAcc>, key: Seq<char>, k: int) -> Option<int>
    decreases acc.len() - k,
{
    if k < 0 || k >= acc.len() {
        None
    } else if acc[k].key == key {
        Some(k)
    } else {
        acc_index(acc, key, k + 1)
    }
}

pub open spec fn min(a: int, b: int) -> int {
    if a < b {
        a
    } else {
        b
    }
}

pub open spec fn max(a: int, b: int) -> int {
    if a > b {
        a
    } else {
        b
    }
}

/// One more official: into its season, which starts empty if new. The
/// fullest name wins; a division is listed once.
pub open spec fn add_official(acc: Seq<SeasonAcc>, o: OfficialV) -> Seq<SeasonAcc> {
    let (key, name) = season_of_spec(o.competition);
    let (a, i) = match acc_index(acc, key, 0) {
        Some(i) => (acc, i),
        None => (
            acc.push(
                SeasonAcc {
                    key,
                    name,
                    officials: 0,
                    divisions: Seq::empty(),
                    first: i64::MAX as int,
                    last: i64::MIN as int,
                },
            ),
            acc.len() as int,
        ),
    };
    let s = a[i];
    let divisions = match o.division {
        Some(d) => if d.len() > 0 && !s.divisions.contains(d) {
            s.divisions.push(d)
        } else {
            s.divisions
        },
        None => s.divisions,
    };
    a.update(
        i,
        SeasonAcc {
            key: s.key,
            name: if byte_len(name) > byte_len(s.name) {
                name
            } else {
                s.name
            },
            officials: s.officials + 1,
            divisions,
            first: min(s.first, o.time as int),
            last: max(s.last, o.time as int),
        },
    )
}

pub open spec fn gathered(os: Seq<OfficialV>, n: int) -> Seq<SeasonAcc>
    decreases n,
{
    if n <= 0 {
        Seq::empty()
    } else {
        add_official(gathered(os, n - 1), os[n - 1])
    }
}

/// `i64` division, which rounds toward zero.
pub open spec fn trunc_div(a: int, b: int) -> int {
    if a >= 0 {
        a / b
    } else {
        -((-a) / b)
    }
}

pub struct SeasonV {
    pub key: Seq<char>,
    pub name: Seq<char>,
    pub from: int,
    pub to: int,
    pub officials: nat,
    pub divisions: Seq<Seq<char>>,
    pub ongoing: bool,
}

impl View for Season {
    type V = SeasonV;

    open spec fn view(&self) -> SeasonV {
        SeasonV {
            key: self.key@,
            name: self.name@,
            from: self.from as int,
            to: self.to as int,
            officials: self.officials as nat,
            divisions: self.divisions@.map_values(|d: String| d@),
            ongoing: self.ongoing,
        }
    }
}

/// A season's span: from six days before the day of its first official to
/// the end of the day after its last.
pub open spec fn season_span(a: SeasonAcc) -> SeasonV {
    SeasonV {
        key: a.key,
        name: a.name,
        from: trunc_div(a.first, DAY as int) * DAY - LEAD_IN_DAYS * DAY,
        to: trunc_div(a.last, DAY as int) * DAY + 2 * DAY - 1,
        officials: a.officials,
        divisions: a.divisions,
        ongoing: false,
    }
}

/// How many of the seasons in `ord` start at or after `from`.
pub open spec fn count_ge(ord: Seq<int>, ss: Seq<SeasonV>, from: int) -> nat
    decreases ord.len(),
{
    if ord.len() == 0 {
        0
    } else {
        count_ge(ord.drop_last(), ss, from) + if ss[ord.last()].from >= from {
            1nat
        } else {
            0nat
        }
    }
}

/// The first `n` seasons newest first, equal starts in their given order (a
/// stable insertion sort).
pub open spec fn newest_first(ss: Seq<SeasonV>, n: int) -> Seq<int>
    decreases n,
{
    if n <= 0 {
        Seq::empty()
    } else {
        let ord = newest_first(ss, n - 1);
        ord.insert(count_ge(ord, ss, ss[n - 1].from) as int, n - 1)
    }
}

/// Seasons newest first, the newest running to `now` while recent.
pub open spec fn group_spec(os: Seq<OfficialV>, now: int) -> Seq<SeasonV> {
    let acc = gathered(os, os.len() as int);
    let ss = acc.map_values(|a: SeasonAcc| season_span(a));
    let ord = newest_first(ss, ss.len() as int);
    let sorted = Seq::new(ord.len(), |k: int| ss[ord[k]]);
    if sorted.len() > 0 && now - sorted[0].to < ONGOING_DAYS * DAY && now > sorted[0].to {
        sorted.update(0, SeasonV { to: now, ongoing: true, ..sorted[0] })
    } else {
        sorted
    }
}

fn byte_count(s: &String) -> (n: u128)
    ensures
        n == byte_len(s@),
{
    let cs = chars_of(s.as_str());
    let mut n: u128 = 0;
    let mut i: usize = 0;
    assert(cs@.take(0) =~= Seq::<char>::empty());
    while i < cs.len()
        invariant
            i <= cs@.len(),
            cs@ == s@,
            n == byte_len(cs@.take(i as int)),
            n <= 4 * i,
        decreases cs@.len() - i,
    {
        proof {
            lemma_byte_len_step(cs@, i as int);
        }
        n = n + utf8_width(cs[i]) as u128;
        i += 1;
    }
    assert(cs@.take(cs@.len() as int) =~= cs@);
    n
}

pub open spec fn acc_view(v: Seq<(Season, i64, i64)>) -> Seq<SeasonAcc> {
    v.map_values(
        |e: (Season, i64, i64)|
            SeasonAcc {
                key: e.0.key@,
                name: e.0.name@,
                officials: e.0.officials as nat,
                divisions: e.0.divisions@.map_values(|d: String| d@),
                first: e.1 as int,
                last: e.2 as int,
            },
    )
}

pub open spec fn officials_view(os: Seq<SeasonOfficial>) -> Seq<OfficialV> {
    os.map_values(|o: SeasonOfficial| o@)
}

fn copy_strings(v: &Vec<String>) -> (r: Vec<String>)
    ensures
        r@.map_values(|d: String| d@) == v@.map_values(|d: String| d@),
{
    let mut r: Vec<String> = Vec::new();
    let mut i: usize = 0;
    while i < v.len()
        invariant
            i <= v@.len(),
            r@.map_values(|d: String| d@) == v@.map_values(|d: String| d@).take(i as int),
        decreases v@.len() - i,
    {
        let c = v[i].clone();
        assert(c@ == v@[i as int]@);
        let ghost before = r@;
        r.push(c);
        assert(r@.map_values(|d: String| d@) =~= before.map_values(|d: String| d@).push(c@));
        i += 1;
        assert(v@.map_values(|d: String| d@).take(i as int) =~= v@.map_values(|d: String| d@).take(
            i - 1,
        ).push(v@[i - 1]@));
    }
    assert(v@.map_values(|d: String| d@).take(v@.len() as int) =~= v@.map_values(|d: String| d@));
    r
}

fn has_division(ds: &Vec<String>, d: &String) -> (b: bool)
    ensures
        b == ds@.map_values(|x: String| x@).contains(d@),
{
    let dc = chars_of(d.as_str());
    let mut i: usize = 0;
    while i < ds.len()
        invariant
            i <= ds@.len(),
            dc@ == d@,
            forall|j: int| 0 <= j < i ==> ds@[j]@ != d@,
        decreases ds@.len() - i,
    {
        let x = chars_of(ds[i].as_str());
        if crate::text::same(x.as_slice(), dc.as_slice()) {
            assert(ds@.map_values(|x: String| x@)[i as int] == d@);
            return true;
        }
        i += 1;
    }
    let ghost dv = ds@.map_values(|x: String| x@);
    assert(!dv.contains(d@)) by {
        if dv.contains(d@) {
            let j = choose|j: int| 0 <= j < dv.len() && #[trigger] dv[j] == d@;
            assert(dv[j] == ds@[j]@);
        }
    }
    false
}

fn same_text(a: &String, b: &String) -> (r: bool)
    ensures
        r == (a@ == b@),
{
    let x = chars_of(a.as_str());
    let y = chars_of(b.as_str());
    crate::text::same(x.as_slice(), y.as_slice())
}

/// A season whose bounds stay `i64`s: its first official's day less the
/// lead-in, and two days past its last official's day.
pub open spec fn span_fits(a: SeasonAcc) -> bool {
    &&& i64::MIN <= trunc_div(a.first, DAY as int) * DAY - LEAD_IN_DAYS * DAY
    &&& trunc_div(a.last, DAY as int) * DAY + 2 * DAY <= i64::MAX
}

/// Every season the officials gather into has bounds that stay `i64`s.
pub open spec fn spans_fit(os: Seq<OfficialV>) -> bool {
    let acc = gathered(os, os.len() as int);
    forall|q: int| 0 <= q < acc.len() ==> span_fits(#[trigger] acc[q])
}

/// Gathers one official into its season.
fn add_one(out: &mut Vec<(Season, i64, i64)>, o: &SeasonOfficial)
    requires
        old(out)@.len() < usize::MAX,
        forall|i: int| 0 <= i < old(out)@.len() ==> (#[trigger] old(out)@[i]).0.officials < usize::MAX,
    ensures
        acc_view(final(out)@) == add_official(acc_view(old(out)@), o@),
        final(out)@.len() <= old(out)@.len() + 1,
        forall|i: int| 0 <= i < final(out)@.len() ==> (#[trigger] final(out)@[i]).0.officials <= if i < old(out)@.len() {
            old(out)@[i].0.officials + 1
        } else {
            1
        },
{
    let ghost a0 = acc_view(out@);
    let (key, name) = season_of(o.competition.as_str());
    let mut i: usize = 0;
    while i < out.len() && !same_text(&out[i].0.key, &key)
        invariant
            i <= out@.len(),
            out@ == old(out)@,
            a0 == acc_view(out@),
            acc_index(a0, key@, 0) == acc_index(a0, key@, i as int),
        decreases out@.len() - i,
    {
        assert(a0[i as int].key == out@[i as int].0.key@);
        i += 1;
    }
    if i < out.len() {
        assert(a0[i as int].key == out@[i as int].0.key@);
    }
    if i == out.len() {
        let ghost before = out@;
        let nm = name.clone();
        assert(nm@ == name@);
        let fresh = Season {
            key,
            name: nm,
            from: 0,
            to: 0,
            officials: 0,
            divisions: Vec::new(),
            ongoing: false,
        };
        assert(fresh.divisions@.map_values(|d: String| d@) =~= Seq::<Seq<char>>::empty());
        out.push((fresh, i64::MAX, i64::MIN));
        assert(acc_view(out@) =~= a0.push(
            SeasonAcc {
                key: season_of_spec(o@.competition).0,
                name: season_of_spec(o@.competition).1,
                officials: 0,
                divisions: Seq::empty(),
                first: i64::MAX as int,
                last: i64::MIN as int,
            },
        ));
    }
    let ghost a1 = acc_view(out@);
    let ghost e1 = a1[i as int];
    let ghost mid = out@;
    assert(acc_index(a0, key@, 0) == Some(i as int) || (acc_index(a0, key@, 0) is None && i
        == a0.len()));
    if byte_count(&name) > byte_count(&out[i].0.name) {
        out[i].0.name = name;
    }
    out[i].0.officials = out[i].0.officials + 1;
    let t = o.time;
    if t < out[i].1 {
        out[i].1 = t;
    }
    if t > out[i].2 {
        out[i].2 = t;
    }
    let ghost before_div = out@;
    if let Some(d) = &o.division {
        if chars_of(d.as_str()).len() > 0 && !has_division(&out[i].0.divisions, d) {
            let ghost dv = out@[i as int].0.divisions@;
            let dd = d.clone();
            assert(dd@ == d@);
            out[i].0.divisions.push(dd);
            assert(out@[i as int].0.divisions@.map_values(|x: String| x@) =~= dv.map_values(
                |x: String| x@,
            ).push(d@));
        }
    }
    let ghost want = add_official(a0, o@);
    assert(want =~= a1.update(
        i as int,
        SeasonAcc {
            key: e1.key,
            name: if byte_len(season_of_spec(o@.competition).1) > byte_len(e1.name) {
                season_of_spec(o@.competition).1
            } else {
                e1.name
            },
            officials: e1.officials + 1,
            divisions: match o@.division {
                Some(d) => if d.len() > 0 && !e1.divisions.contains(d) {
                    e1.divisions.push(d)
                } else {
                    e1.divisions
                },
                None => e1.divisions,
            },
            first: min(e1.first, o@.time as int),
            last: max(e1.last, o@.time as int),
        },
    ));
    assert forall|j: int| 0 <= j < out@.len() && j != i implies #[trigger] out@[j] == mid[j] by {}
    assert(acc_view(out@) =~= want);
}

fn day_floor(t: i64) -> (r: i64)
    ensures
        r == trunc_div(t as int, DAY as int) * DAY,
{
    let q: i64 = if t >= 0 {
        t / DAY
    } else {
        let m: i128 = (-(t as i128)) / (DAY as i128);
        assert(m == trunc_div(-(t as int), DAY as int));
        (-m) as i64
    };
    assert(q == trunc_div(t as int, DAY as int));
    assert(-0x8000_0000_0000_0000 <= q * DAY <= 0x7FFF_FFFF_FFFF_FFFF) by (nonlinear_arith)
        requires
            q == trunc_div(t as int, DAY as int),
            -0x8000_0000_0000_0000 <= t <= 0x7FFF_FFFF_FFFF_FFFF,
    ;
    q * DAY
}

fn copy_season(s: &Season) -> (r: Season)
    ensures
        r@ == s@,
{
    Season {
        key: s.key.clone(),
        name: s.name.clone(),
        from: s.from,
        to: s.to,
        officials: s.officials,
        divisions: copy_strings(&s.divisions),
        ongoing: s.ongoing,
    }
}

/// Officials grouped into seasons, newest first. `now` is unix seconds.
pub fn group(officials: &[SeasonOfficial], now: i64) -> (r: Vec<Season>)
    requires
        spans_fit(officials_view(officials@)),
    ensures
        r@.map_values(|s: Season| s@) == group_spec(officials_view(officials@), now as int),
{
    let ghost os = officials_view(officials@);
    let mut out: Vec<(Season, i64, i64)> = Vec::new();
    let mut k: usize = 0;
    assert(acc_view(out@) =~= gathered(os, 0));
    while k < officials.len()
        invariant
            k <= officials@.len(),
            os == officials_view(officials@),
            acc_view(out@) == gathered(os, k as int),
            out@.len() <= k,
            forall|i: int| 0 <= i < out@.len() ==> (#[trigger] out@[i]).0.officials <= k,
        decreases officials@.len() - k,
    {
        assert(os[k as int] == officials@[k as int]@);
        let ghost before = out@;
        add_one(&mut out, &officials[k]);
        assert forall|i: int| 0 <= i < out@.len() implies (#[trigger] out@[i]).0.officials <= k + 1 by {
            if i < before.len() {
                assert(before[i].0.officials <= k);
            }
        }
        k += 1;
    }
    let ghost acc = acc_view(out@);
    let ghost ss = acc.map_values(|a: SeasonAcc| season_span(a));
    let mut spans: Vec<Season> = Vec::new();
    let mut i: usize = 0;
    while i < out.len()
        invariant
            i <= out@.len(),
            acc == acc_view(out@),
            ss == acc.map_values(|a: SeasonAcc| season_span(a)),
            acc == gathered(officials_view(officials@), officials@.len() as int),
            spans_fit(officials_view(officials@)),
            spans@.len() == i,
            forall|q: int| 0 <= q < i ==> #[trigger] spans@[q]@ == ss[q],
        decreases out@.len() - i,
    {
        let e = &out[i];
        assert(acc[i as int].first == e.1 && acc[i as int].last == e.2);
        assert(officials_view(officials@).len() == officials@.len());
        assert(span_fits(acc[i as int]));
        let mut sn = copy_season(&e.0);
        sn.from = day_floor(e.1) - LEAD_IN_DAYS * DAY;
        sn.to = day_floor(e.2) + 2 * DAY - 1;
        sn.ongoing = false;
        spans.push(sn);
        i += 1;
    }
    let mut ord: Vec<usize> = Vec::new();
    let mut i: usize = 0;
    while i < spans.len()
        invariant
            i <= spans@.len() == ss.len(),
            forall|q: int| 0 <= q < spans@.len() ==> #[trigger] spans@[q]@ == ss[q],
            ord@.map_values(|x: usize| x as int) == newest_first(ss, i as int),
            ord@.len() == i,
            forall|q: int| 0 <= q < ord@.len() ==> #[trigger] ord@[q] < i,
        decreases spans@.len() - i,
    {
        let f = spans[i].from;
        assert(spans@[i as int]@ == ss[i as int]);
        let mut c: usize = 0;
        let mut n: usize = 0;
        while n < ord.len()
            invariant
                n <= ord@.len() == i,
                c <= n,
                i < spans@.len() == ss.len(),
                forall|q: int| 0 <= q < spans@.len() ==> #[trigger] spans@[q]@ == ss[q],
                forall|q: int| 0 <= q < ord@.len() ==> #[trigger] ord@[q] < i,
                f == ss[i as int].from,
                c == count_ge(ord@.map_values(|x: usize| x as int).take(n as int), ss, f as int),
            decreases ord@.len() - n,
        {
            assert(ord@.map_values(|x: usize| x as int).take(n + 1).drop_last() =~= ord@.map_values(
                |x: usize| x as int,
            ).take(n as int));
            let j = ord[n];
            assert(spans@[j as int]@ == ss[j as int]);
            if spans[j].from >= f {
                c += 1;
            }
            n += 1;
        }
        assert(ord@.map_values(|x: usize| x as int).take(ord@.len() as int) =~= ord@.map_values(
            |x: usize| x as int,
        ));
        let ghost before = ord@;
        ord.insert(c, i);
        assert(ord@.map_values(|x: usize| x as int) =~= before.map_values(|x: usize| x as int).insert(
            c as int,
            i as int,
        ));
        i += 1;
        assert forall|q: int| 0 <= q < ord@.len() implies #[trigger] ord@[q] < i by {
            if q < c {
                assert(ord@[q] == before[q]);
            } else if q > c {
                assert(ord@[q] == before[q - 1]);
            }
        }
    }
    let ghost ov = ord@.map_values(|x: usize| x as int);
    let mut sorted: Vec<Season> = Vec::new();
    let mut k: usize = 0;
    while k < ord.len()
        invariant
            k <= ord@.len() == spans@.len() == ss.len(),
            ov == ord@.map_values(|x: usize| x as int),
            forall|q: int| 0 <= q < spans@.len() ==> #[trigger] spans@[q]@ == ss[q],
            forall|q: int| 0 <= q < ord@.len() ==> #[trigger] ord@[q] < spans@.len(),
            sorted@.len() == k,
            forall|q: int| 0 <= q < k ==> #[trigger] sorted@[q]@ == ss[ov[q]],
        decreases ord@.len() - k,
    {
        let s1 = copy_season(&spans[ord[k]]);
        sorted.push(s1);
        k += 1;
    }
    let ghost plain = Seq::new(ov.len(), |q: int| ss[ov[q]]);
    assert(sorted@.map_values(|s: Season| s@) =~= plain);
    if sorted.len() > 0 {
        assert(sorted@[0]@ == ss[ov[0]]);
        let to = sorted[0].to;
        if (now as i128 - to as i128) < (ONGOING_DAYS * DAY) as i128 && now > to {
            sorted[0].to = now;
            sorted[0].ongoing = true;
            assert(sorted@.map_values(|s: Season| s@) =~= plain.update(
                0,
                SeasonV { to: now as int, ongoing: true, ..plain[0] },
            ));
        }
    }
    sorted
}

} // verus!
