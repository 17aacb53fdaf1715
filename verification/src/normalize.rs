//! logs.tf JSON -> [`NormalizedLog`].
//!
//! Works on a JSON tree rather than typed records on purpose. The account
//! spans logs from 2014 to today: early logs key players by SteamID2,
//! capability flags vary per log, and fields come and go. A typed parse
//! would reject a whole old log over one odd field; this extracts what is
//! there and treats anything absent as absent.
use crate::matchdata::{
    other_team, team_named, ClassLine, EventLine, EventView, LogFlags, NormalizedLog, PlayerLine,
    PlayerStats, PlayerView, RoundLine, RoundTeam, RoundView, Team, VsLine,
};
use crate::rawlog::{number_of, number_spec};
use crate::steamid::{steam_parse, SteamId};
use crate::text::{chars_of, idec, parse_i64, parse_i64_of, push_signed, push_str, same, trim, trimmed};
use crate::tfclass::{lineup, parse_class, TfClass};
use vstd::prelude::*;

verus! {

/// A JSON value, as `serde_json` reads it.
#[derive(Debug)]
pub enum Json {
    Null,
    Bool(bool),
    /// A number that fits `i64`.
    Number(i64),
    /// Any other number (a fraction, an exponent, or too large for `i64`),
    /// as `serde_json` writes it.
    NumberText(String),
    Str(String),
    Array(Vec<Json>),
    Object(Vec<(String, Json)>),
}

// ---------------------------------------------------------------------------
// Lenient field access
// ---------------------------------------------------------------------------

/// The first field named `key` from `k` on.
pub open spec fn key_at(fs: Seq<(String, Json)>, key: Seq<char>, k: int) -> Option<int>
    decreases fs.len() - k,
{
    if k < 0 || k >= fs.len() {
        None
    } else if fs[k].0@ == key {
        Some(k)
    } else {
        key_at(fs, key, k + 1)
    }
}

/// An object's field (`Value::get`); anything else has none.
pub open spec fn get(v: Json, key: Seq<char>) -> Option<Json> {
    match v {
        Json::Object(fs) => match key_at(fs@, key, 0) {
            Some(i) => Some(fs@[i].1),
            None => None,
        },
        _ => None,
    }
}

pub open spec fn str_of(v: Option<Json>) -> Option<Seq<char>> {
    match v {
        Some(Json::Str(s)) => Some(s@),
        _ => None,
    }
}

/// A number as logs.tf writes it: a number (one that is no `i64` rounded
/// half away from zero on its decimal digits and held to `i64`), a string
/// holding one, or a boolean as 0 or 1.
pub open spec fn int_of(v: Option<Json>) -> Option<i64> {
    match v {
        Some(Json::Number(n)) => Some(n),
        Some(Json::NumberText(s)) => match number_spec(s@) {
            Some(n) => Some(n as i64),
            None => None,
        },
        Some(Json::Str(s)) => match parse_i64(trim(s@)) {
            Some(n) => Some(n as i64),
            None => None,
        },
        Some(Json::Bool(b)) => Some(
            if b {
                1i64
            } else {
                0i64
            },
        ),
        _ => None,
    }
}

/// A field's number, or 0.
pub open spec fn int_or0(v: Json, key: Seq<char>) -> i64 {
    match int_of(get(v, key)) {
        Some(n) => n,
        None => 0,
    }
}

/// A field that is `true`.
pub open spec fn flag_of(v: Json, key: Seq<char>) -> bool {
    get(v, key) matches Some(Json::Bool(b)) && b
}

/// A field's text, when it is not empty.
pub open spec fn text_of(v: Json, key: Seq<char>) -> Option<Seq<char>> {
    match str_of(get(v, key)) {
        Some(s) => if s.len() > 0 {
            Some(s)
        } else {
            None
        },
        None => None,
    }
}

/// The team a field names.
pub open spec fn team_of(v: Json, key: Seq<char>) -> Option<Team> {
    match str_of(get(v, key)) {
        Some(s) => team_named(s),
        None => None,
    }
}

pub(crate) fn get_field<'a>(v: &'a Json, key: &str) -> (r: Option<&'a Json>)
    ensures
        match get(*v, key@) {
            Some(x) => r == Some(&x),
            None => r is None,
        },
        opt_json(r) == get(*v, key@),
{
    match v {
        Json::Object(fs) => {
            assert(*v == Json::Object(*fs));
            let k = chars_of(key);
            let mut i: usize = 0;
            while i < fs.len()
                invariant
                    i <= fs@.len(),
                    *v == Json::Object(*fs),
                    k@ == key@,
                    key_at(fs@, key@, 0) == key_at(fs@, key@, i as int),
                decreases fs@.len() - i,
            {
                let n = chars_of(fs[i].0.as_str());
                if same(n.as_slice(), k.as_slice()) {
                    assert(fs@[i as int].0@ == key@);
                    assert(key_at(fs@, key@, i as int) == Some(i as int));
                    assert(get(*v, key@) == Some(fs@[i as int].1));
                    return Some(&fs[i].1);
                }
                i += 1;
            }
            None
        },
        _ => None,
    }
}

fn str_in(v: Option<&Json>) -> (r: Option<&str>)
    ensures
        match str_of(opt_json(v)) {
            Some(s) => r matches Some(x) && x@ == s,
            None => r is None,
        },
{
    match v {
        Some(Json::Str(s)) => Some(s.as_str()),
        _ => None,
    }
}

pub open spec fn opt_json(v: Option<&Json>) -> Option<Json> {
    match v {
        Some(x) => Some(*x),
        None => None,
    }
}

fn as_i64(v: Option<&Json>) -> (r: Option<i64>)
    ensures
        r == int_of(opt_json(v)),
{
    match v {
        Some(Json::Number(n)) => Some(*n),
        Some(Json::NumberText(s)) => {
            let c = chars_of(s.as_str());
            number_of(c.as_slice())
        },
        Some(Json::Str(s)) => {
            let c = chars_of(s.as_str());
            let t = trimmed(c.as_slice());
            parse_i64_of(t.as_slice())
        },
        Some(Json::Bool(b)) => Some(
            if *b {
                1
            } else {
                0
            },
        ),
        _ => None,
    }
}

fn int_field(v: &Json, key: &str) -> (r: i64)
    ensures
        r == int_or0(*v, key@),
{
    match as_i64(get_field(v, key)) {
        Some(n) => n,
        None => 0,
    }
}

fn flag(v: &Json, key: &str) -> (r: bool)
    ensures
        r == flag_of(*v, key@),
{
    match get_field(v, key) {
        Some(Json::Bool(b)) => *b,
        _ => false,
    }
}

fn str_field(v: &Json, key: &str) -> (r: Option<String>)
    ensures
        match text_of(*v, key@) {
            Some(s) => r matches Some(x) && x@ == s,
            None => r is None,
        },
{
    match str_in(get_field(v, key)) {
        Some(s) => {
            let c = chars_of(s);
            if c.len() > 0 {
                Some(crate::text::string_of(c.as_slice()))
            } else {
                None
            }
        },
        None => None,
    }
}

fn team_field(v: &Json, key: &str) -> (r: Option<Team>)
    ensures
        r == team_of(*v, key@),
{
    match str_in(get_field(v, key)) {
        Some(s) => Team::parse(s),
        None => None,
    }
}

// ---------------------------------------------------------------------------
// A player's totals
// ---------------------------------------------------------------------------

pub open spec fn stats_spec(p: Json) -> PlayerStats {
    PlayerStats {
        kills: int_or0(p, "kills"@),
        deaths: int_or0(p, "deaths"@),
        assists: int_or0(p, "assists"@),
        suicides: int_or0(p, "suicides"@),
        dmg: int_or0(p, "dmg"@),
        dmg_real: int_or0(p, "dmg_real"@),
        dt: int_or0(p, "dt"@),
        dt_real: int_or0(p, "dt_real"@),
        hr: int_or0(p, "hr"@),
        heal: int_or0(p, "heal"@),
        ubers: int_or0(p, "ubers"@),
        drops: int_or0(p, "drops"@),
        headshots: int_or0(p, "headshots"@),
        headshots_hit: int_or0(p, "headshots_hit"@),
        backstabs: int_or0(p, "backstabs"@),
        medkits: int_or0(p, "medkits"@),
        medkits_hp: int_or0(p, "medkits_hp"@),
        sentries: int_or0(p, "sentries"@),
        cpc: int_or0(p, "cpc"@),
        ic: int_or0(p, "ic"@),
        lks: int_or0(p, "lks"@),
        airshots: int_or0(p, "as"@),
    }
}

fn stats(p: &Json) -> (r: PlayerStats)
    ensures
        r == stats_spec(*p),
{
    PlayerStats {
        kills: int_field(p, "kills"),
        deaths: int_field(p, "deaths"),
        assists: int_field(p, "assists"),
        suicides: int_field(p, "suicides"),
        dmg: int_field(p, "dmg"),
        dmg_real: int_field(p, "dmg_real"),
        dt: int_field(p, "dt"),
        dt_real: int_field(p, "dt_real"),
        hr: int_field(p, "hr"),
        heal: int_field(p, "heal"),
        ubers: int_field(p, "ubers"),
        drops: int_field(p, "drops"),
        headshots: int_field(p, "headshots"),
        headshots_hit: int_field(p, "headshots_hit"),
        backstabs: int_field(p, "backstabs"),
        medkits: int_field(p, "medkits"),
        medkits_hp: int_field(p, "medkits_hp"),
        sentries: int_field(p, "sentries"),
        cpc: int_field(p, "cpc"),
        ic: int_field(p, "ic"),
        lks: int_field(p, "lks"),
        airshots: int_field(p, "as"),
    }
}

pub open spec fn flags_spec(info: Json) -> LogFlags {
    LogFlags {
        real_damage: flag_of(info, "hasRealDamage"@),
        accuracy: flag_of(info, "hasAccuracy"@),
        hs: flag_of(info, "hasHS"@),
        hs_hit: flag_of(info, "hasHS_hit"@),
        bs: flag_of(info, "hasBS"@),
        cp: flag_of(info, "hasCP"@),
        dt: flag_of(info, "hasDT"@),
        airshots: flag_of(info, "hasAS"@),
        hr: flag_of(info, "hasHR"@),
    }
}

fn flags(info: &Json) -> (r: LogFlags)
    ensures
        r == flags_spec(*info),
{
    LogFlags {
        real_damage: flag(info, "hasRealDamage"),
        accuracy: flag(info, "hasAccuracy"),
        hs: flag(info, "hasHS"),
        hs_hit: flag(info, "hasHS_hit"),
        bs: flag(info, "hasBS"),
        cp: flag(info, "hasCP"),
        dt: flag(info, "hasDT"),
        airshots: flag(info, "hasAS"),
        hr: flag(info, "hasHR"),
    }
}

// ---------------------------------------------------------------------------
// Per-class lines
// ---------------------------------------------------------------------------

pub open spec fn fits(x: int) -> bool {
    i64::MIN <= x <= i64::MAX
}

/// The entries of a player's `class_stats`.
pub open spec fn class_entries(p: Json) -> Seq<Json> {
    match get(p, "class_stats"@) {
        Some(Json::Array(a)) => a@,
        _ => Seq::empty(),
    }
}

/// The class an entry is for, when it names one (`undefined` does not).
pub open spec fn entry_class(c: Json) -> Option<TfClass> {
    match str_of(get(c, "type"@)) {
        Some(t) => parse_class(t),
        None => None,
    }
}

/// The fields a class line adds up, in the order they are added.
pub open spec fn class_key(q: int) -> Seq<char> {
    if q == 0 {
        "total_time"@
    } else if q == 1 {
        "kills"@
    } else if q == 2 {
        "assists"@
    } else if q == 3 {
        "deaths"@
    } else {
        "dmg"@
    }
}

/// Field `q` summed over the first `n` entries for class `c`.
pub open spec fn class_sum(es: Seq<Json>, c: TfClass, q: int, n: int) -> int
    decreases n,
{
    if n <= 0 {
        0
    } else {
        class_sum(es, c, q, n - 1) + if entry_class(es[n - 1]) == Some(c) {
            int_or0(es[n - 1], class_key(q)) as int
        } else {
            0
        }
    }
}

/// Every running total of field `q` for class `c` stays an `i64`.
pub open spec fn class_sums_fit(es: Seq<Json>, c: TfClass, q: int, n: int) -> bool
    decreases n,
{
    n <= 0 || (class_sums_fit(es, c, q, n - 1) && fits(class_sum(es, c, q, n)))
}

pub open spec fn class_present(es: Seq<Json>, c: TfClass) -> bool {
    exists|j: int| 0 <= j < es.len() && #[trigger] entry_class(es[j]) == Some(c)
}

pub open spec fn classes_fit(es: Seq<Json>) -> bool {
    forall|k: int, q: int|
        0 <= k < 9 && 0 <= q < 5 ==> #[trigger] class_sums_fit(es, lineup()[k], q, es.len() as int)
}

pub open spec fn class_line(es: Seq<Json>, c: TfClass) -> ClassLine {
    let n = es.len() as int;
    ClassLine {
        class: c,
        time_s: class_sum(es, c, 0, n) as i64,
        kills: class_sum(es, c, 1, n) as i64,
        assists: class_sum(es, c, 2, n) as i64,
        deaths: class_sum(es, c, 3, n) as i64,
        dmg: class_sum(es, c, 4, n) as i64,
    }
}

/// One line per class played, in lineup order, any class that appears
/// twice (a player who swaps off and back on) merged, and logs.tf's
/// `undefined` bucket dropped.
pub open spec fn class_lines(es: Seq<Json>, k: int) -> Seq<ClassLine>
    decreases k,
{
    if k <= 0 {
        Seq::empty()
    } else {
        let prev = class_lines(es, k - 1);
        let c = lineup()[k - 1];
        if class_present(es, c) {
            prev.push(class_line(es, c))
        } else {
            prev
        }
    }
}

fn key_name(q: usize) -> (r: &'static str)
    requires
        q < 5,
    ensures
        r@ == class_key(q as int),
{
    if q == 0 {
        "total_time"
    } else if q == 1 {
        "kills"
    } else if q == 2 {
        "assists"
    } else if q == 3 {
        "deaths"
    } else {
        "dmg"
    }
}

fn class_in(c: &Json) -> (r: Option<TfClass>)
    ensures
        r == entry_class(*c),
{
    match str_in(get_field(c, "type")) {
        Some(t) => {
            let tc = chars_of(t);
            TfClass::named(tc.as_slice())
        },
        None => None,
    }
}

/// Field `q` of class `c` over all entries, or `None` when a running total
/// leaves `i64`.
fn class_total(es: &Vec<Json>, c: TfClass, q: usize) -> (r: Option<i64>)
    requires
        q < 5,
    ensures
        match r {
            Some(v) => class_sums_fit(es@, c, q as int, es@.len() as int) && v == class_sum(
                es@,
                c,
                q as int,
                es@.len() as int,
            ),
            None => !class_sums_fit(es@, c, q as int, es@.len() as int),
        },
{
    let key = key_name(q);
    let mut sum: i64 = 0;
    let mut j: usize = 0;
    while j < es.len()
        invariant
            j <= es@.len(),
            q < 5,
            key@ == class_key(q as int),
            class_sums_fit(es@, c, q as int, j as int),
            sum == class_sum(es@, c, q as int, j as int),
        decreases es@.len() - j,
    {
        let e = &es[j];
        match class_in(e) {
            Some(x) => {
                if x == c {
                    let v = int_field(e, key);
                    match sum.checked_add(v) {
                        Some(t) => sum = t,
                        None => {
                            proof {
                                lemma_sums_fit_prefix(es@, c, q as int, j + 1, es@.len() as int);
                            }
                            return None;
                        },
                    }
                }
            },
            None => {},
        }
        j += 1;
    }
    Some(sum)
}

proof fn lemma_sums_fit_prefix(es: Seq<Json>, c: TfClass, q: int, n: int, m: int)
    requires
        0 <= n <= m,
        !class_sums_fit(es, c, q, n),
    ensures
        !class_sums_fit(es, c, q, m),
    decreases m - n,
{
    if n < m {
        lemma_sums_fit_prefix(es, c, q, n, m - 1);
    }
}

proof fn lemma_absent_sums(es: Seq<Json>, c: TfClass, q: int, n: int)
    requires
        0 <= n <= es.len(),
        !class_present(es, c),
    ensures
        class_sum(es, c, q, n) == 0,
        class_sums_fit(es, c, q, n),
    decreases n,
{
    if n > 0 {
        lemma_absent_sums(es, c, q, n - 1);
        assert(entry_class(es[n - 1]) != Some(c));
    }
}

fn present_in(es: &Vec<Json>, c: TfClass) -> (r: bool)
    ensures
        r == class_present(es@, c),
{
    let mut j: usize = 0;
    while j < es.len()
        invariant
            j <= es@.len(),
            forall|i: int| 0 <= i < j ==> #[trigger] entry_class(es@[i]) != Some(c),
        decreases es@.len() - j,
    {
        match class_in(&es[j]) {
            Some(x) => {
                if x == c {
                    assert(entry_class(es@[j as int]) == Some(c));
                    return true;
                }
            },
            None => {},
        }
        j += 1;
    }
    false
}

/// The class lines of a player's `class_stats`, or `None` when a running
/// total leaves `i64`.
fn class_lines_from(es: &Vec<Json>) -> (r: Option<Vec<ClassLine>>)
    ensures
        classes_fit(es@) ==> (r matches Some(v) && v@ == class_lines(es@, 9)),
        !classes_fit(es@) ==> r is None,
{
    let all = TfClass::all();
    let mut out: Vec<ClassLine> = Vec::new();
    let mut k: usize = 0;
    while k < 9
        invariant
            k <= 9,
            all@ == lineup(),
            out@ == class_lines(es@, k as int),
            forall|kk: int, q: int| 0 <= kk < k && 0 <= q < 5 ==> #[trigger] class_sums_fit(es@, lineup()[kk], q, es@.len() as int),
        decreases 9 - k,
    {
        let c = all[k];
        if present_in(es, c) {
            let mut t: [i64; 5] = [0; 5];
            let mut q: usize = 0;
            while q < 5
                invariant
                    q <= 5,
                    k < 9,
                    c == lineup()[k as int],
                    forall|qq: int| 0 <= qq < q ==> #[trigger] class_sums_fit(es@, c, qq, es@.len() as int),
                    forall|qq: int| 0 <= qq < q ==> t@[qq] == #[trigger] class_sum(es@, c, qq, es@.len() as int),
                decreases 5 - q,
            {
                match class_total(es, c, q) {
                    Some(v) => t.set(q, v),
                    None => {
                        assert(!classes_fit(es@)) by {
                            assert(!class_sums_fit(es@, lineup()[k as int], q as int, es@.len() as int));
                        }
                        return None;
                    },
                }
                q += 1;
            }
            out.push(ClassLine { class: c, time_s: t[0], kills: t[1], assists: t[2], deaths: t[3], dmg: t[4] });
            proof {
                assert forall|qq: int| 0 <= qq < 5 implies fits(#[trigger] class_sum(es@, c, qq, es@.len() as int)) by {
                    assert(class_sums_fit(es@, c, qq, es@.len() as int));
                }
                assert(out@.last() == class_line(es@, c));
            }
            assert(out@ =~= class_lines(es@, k + 1));
        } else {
            proof {
                assert forall|q: int| 0 <= q < 5 implies #[trigger] class_sums_fit(es@, c, q, es@.len() as int) by {
                    lemma_absent_sums(es@, c, q, es@.len() as int);
                }
            }
            assert(out@ =~= class_lines(es@, k + 1));
        }
        k += 1;
    }
    Some(out)
}

/// The lines of a player's `class_stats` (none when it is missing).
fn classes(p: &Json) -> (r: Option<Vec<ClassLine>>)
    ensures
        classes_fit(class_entries(*p)) ==> (r matches Some(v) && v@ == class_lines(class_entries(*p), 9)),
        !classes_fit(class_entries(*p)) ==> r is None,
{
    match get_field(p, "class_stats") {
        Some(Json::Array(a)) => class_lines_from(a),
        _ => {
            let none: Vec<Json> = Vec::new();
            class_lines_from(&none)
        },
    }
}

// ---------------------------------------------------------------------------
// Class-against-class lines
// ---------------------------------------------------------------------------

/// An object's fields; anything else has none.
pub open spec fn fields_of(src: Option<Json>) -> Seq<(String, Json)> {
    match src {
        Some(Json::Object(fs)) => fs@,
        _ => Seq::empty(),
    }
}

pub open spec fn count_of(v: Json) -> i64 {
    match int_of(Some(v)) {
        Some(n) => n,
        None => 0,
    }
}

/// The counts for class `c` among the first `n` fields.
pub open spec fn vs_sum(fs: Seq<(String, Json)>, c: TfClass, n: int) -> int
    decreases n,
{
    if n <= 0 {
        0
    } else {
        vs_sum(fs, c, n - 1) + if parse_class(fs[n - 1].0@) == Some(c) {
            count_of(fs[n - 1].1) as int
        } else {
            0
        }
    }
}

pub open spec fn vs_sums_fit(fs: Seq<(String, Json)>, c: TfClass, n: int) -> bool
    decreases n,
{
    n <= 0 || (vs_sums_fit(fs, c, n - 1) && fits(vs_sum(fs, c, n)))
}

pub open spec fn vs_present(fs: Seq<(String, Json)>, c: TfClass) -> bool {
    exists|j: int| 0 <= j < fs.len() && #[trigger] parse_class(fs[j].0@) == Some(c)
}

/// Every class's totals stay within `i64` in all three tables.
pub open spec fn vs_fit_at(k: Seq<(String, Json)>, d: Seq<(String, Json)>, a: Seq<(String, Json)>, c: TfClass) -> bool {
    &&& vs_sums_fit(k, c, k.len() as int)
    &&& vs_sums_fit(d, c, d.len() as int)
    &&& vs_sums_fit(a, c, a.len() as int)
}

pub open spec fn vs_fit(k: Seq<(String, Json)>, d: Seq<(String, Json)>, a: Seq<(String, Json)>) -> bool {
    forall|i: int| 0 <= i < 9 ==> #[trigger] vs_fit_at(k, d, a, lineup()[i])
}

/// One line per class met in any of the three tables, in lineup order:
/// kills of it, deaths to it and assists against it.
pub open spec fn vs_lines_spec(k: Seq<(String, Json)>, d: Seq<(String, Json)>, a: Seq<(String, Json)>, i: int) -> Seq<VsLine>
    decreases i,
{
    if i <= 0 {
        Seq::empty()
    } else {
        let prev = vs_lines_spec(k, d, a, i - 1);
        let c = lineup()[i - 1];
        if vs_present(k, c) || vs_present(d, c) || vs_present(a, c) {
            prev.push(
                VsLine {
                    other_class: c,
                    kills: vs_sum(k, c, k.len() as int) as i64,
                    deaths: vs_sum(d, c, d.len() as int) as i64,
                    assists: vs_sum(a, c, a.len() as int) as i64,
                },
            )
        } else {
            prev
        }
    }
}

proof fn lemma_vs_fit_prefix(fs: Seq<(String, Json)>, c: TfClass, n: int, m: int)
    requires
        0 <= n <= m,
        !vs_sums_fit(fs, c, n),
    ensures
        !vs_sums_fit(fs, c, m),
    decreases m - n,
{
    if n < m {
        lemma_vs_fit_prefix(fs, c, n, m - 1);
    }
}

proof fn lemma_vs_absent(fs: Seq<(String, Json)>, c: TfClass, n: int)
    requires
        0 <= n <= fs.len(),
        !vs_present(fs, c),
    ensures
        vs_sum(fs, c, n) == 0,
        vs_sums_fit(fs, c, n),
    decreases n,
{
    if n > 0 {
        lemma_vs_absent(fs, c, n - 1);
        assert(parse_class(fs[n - 1].0@) != Some(c));
    }
}

fn class_named_by(key: &String) -> (r: Option<TfClass>)
    ensures
        r == parse_class(key@),
{
    let c = chars_of(key.as_str());
    TfClass::named(c.as_slice())
}

fn count_in(v: &Json) -> (r: i64)
    ensures
        r == count_of(*v),
{
    match as_i64(Some(v)) {
        Some(n) => n,
        None => 0,
    }
}

/// A table's counts for class `c`, present or not, or `None` when a running
/// total leaves `i64`.
fn vs_total(fs: &[(String, Json)], c: TfClass) -> (r: Option<(bool, i64)>)
    ensures
        match r {
            Some((p, v)) => vs_sums_fit(fs@, c, fs@.len() as int) && v == vs_sum(fs@, c, fs@.len() as int)
                && p == vs_present(fs@, c),
            None => !vs_sums_fit(fs@, c, fs@.len() as int),
        },
{
    let mut sum: i64 = 0;
    let mut seen = false;
    let mut j: usize = 0;
    while j < fs.len()
        invariant
            j <= fs@.len(),
            vs_sums_fit(fs@, c, j as int),
            sum == vs_sum(fs@, c, j as int),
            seen == exists|i: int| 0 <= i < j && #[trigger] parse_class(fs@[i].0@) == Some(c),
        decreases fs@.len() - j,
    {
        let here = class_named_by(&fs[j].0);
        let is_c = match here {
            Some(x) => x == c,
            None => false,
        };
        if is_c {
            assert(parse_class(fs@[j as int].0@) == Some(c));
            seen = true;
            match sum.checked_add(count_in(&fs[j].1)) {
                Some(t) => sum = t,
                None => {
                    proof {
                        lemma_vs_fit_prefix(fs@, c, j + 1, fs@.len() as int);
                    }
                    return None;
                },
            }
        }
        j += 1;
    }
    Some((seen, sum))
}

fn no_fields() -> (r: Vec<(String, Json)>)
    ensures
        r@ == Seq::<(String, Json)>::empty(),
{
    Vec::new()
}

/// The vs lines from the three tables, or `None` when a total leaves `i64`.
fn vs_lines(k: &[(String, Json)], d: &[(String, Json)], a: &[(String, Json)]) -> (r: Option<Vec<VsLine>>)
    ensures
        vs_fit(k@, d@, a@) ==> (r matches Some(v) && v@ == vs_lines_spec(k@, d@, a@, 9)),
        !vs_fit(k@, d@, a@) ==> r is None,
{
    let all = TfClass::all();
    let mut out: Vec<VsLine> = Vec::new();
    let mut i: usize = 0;
    while i < 9
        invariant
            i <= 9,
            all@ == lineup(),
            out@ == vs_lines_spec(k@, d@, a@, i as int),
            forall|ii: int| 0 <= ii < i ==> #[trigger] vs_fit_at(k@, d@, a@, lineup()[ii]),
        decreases 9 - i,
    {
        let c = all[i];
        let rk = vs_total(k, c);
        let (pk, nk) = match rk {
            Some(x) => x,
            None => {
                assert(!vs_fit(k@, d@, a@)) by {
                    assert(!vs_fit_at(k@, d@, a@, lineup()[i as int]));
                }
                return None;
            },
        };
        let rd = vs_total(d, c);
        let (pd, nd) = match rd {
            Some(x) => x,
            None => {
                assert(!vs_fit(k@, d@, a@)) by {
                    assert(!vs_fit_at(k@, d@, a@, lineup()[i as int]));
                }
                return None;
            },
        };
        let ra = vs_total(a, c);
        let (pa, na) = match ra {
            Some(x) => x,
            None => {
                assert(!vs_fit(k@, d@, a@)) by {
                    assert(!vs_fit_at(k@, d@, a@, lineup()[i as int]));
                }
                return None;
            },
        };
        proof {
            assert(fits(vs_sum(k@, c, k@.len() as int)));
            assert(fits(vs_sum(d@, c, d@.len() as int)));
            assert(fits(vs_sum(a@, c, a@.len() as int)));
            assert(vs_fit_at(k@, d@, a@, c));
        }
        if pk || pd || pa {
            out.push(VsLine { other_class: c, kills: nk, deaths: nd, assists: na });
        }
        assert(c == lineup()[i as int]);
        assert(out@ =~= vs_lines_spec(k@, d@, a@, i + 1));
        i += 1;
    }
    Some(out)
}


// ---------------------------------------------------------------------------
// Nested access
// ---------------------------------------------------------------------------

/// A field of a value that may be missing.
pub open spec fn get_in(v: Option<Json>, key: Seq<char>) -> Option<Json> {
    match v {
        Some(x) => get(x, key),
        None => None,
    }
}

/// An array's items; anything else has none.
pub open spec fn items_of(v: Option<Json>) -> Seq<Json> {
    match v {
        Some(Json::Array(a)) => a@,
        _ => Seq::empty(),
    }
}

fn get_opt<'a>(v: Option<&'a Json>, key: &str) -> (r: Option<&'a Json>)
    ensures
        opt_json(r) == get_in(opt_json(v), key@),
{
    match v {
        Some(x) => get_field(x, key),
        None => None,
    }
}

// ---------------------------------------------------------------------------
// Rounds
// ---------------------------------------------------------------------------

/// A team as given in a round, seen from the stable side: in a round where the
/// teams wore each other's colours, a colour names the other team.
pub open spec fn stable(t: Option<Team>, swapped: bool) -> Option<Team> {
    match t {
        Some(x) => Some(
            if swapped {
                other_team(x)
            } else {
                x
            },
        ),
        None => None,
    }
}

pub open spec fn start_of(r: Json) -> Option<i64> {
    int_of(get(r, "start_time"@))
}

/// The earliest wall-clock start among the first `n` rounds.
pub open spec fn min_start(rs: Seq<Json>, n: int) -> Option<i64>
    decreases n,
{
    if n <= 0 {
        None
    } else {
        let prev = min_start(rs, n - 1);
        match start_of(rs[n - 1]) {
            None => prev,
            Some(s) => match prev {
                None => Some(s),
                Some(m) => Some(
                    if s < m {
                        s
                    } else {
                        m
                    },
                ),
            },
        }
    }
}

/// The team the players table gives an account key for the whole log: the
/// last entry under that key that names a team.
pub open spec fn overall_team(ps: Seq<(String, Json)>, id: Seq<char>, n: int) -> Option<Team>
    decreases n,
{
    if n <= 0 {
        None
    } else if ps[n - 1].0@ == id && team_of(ps[n - 1].1, "team"@) is Some {
        team_of(ps[n - 1].1, "team"@)
    } else {
        overall_team(ps, id, n - 1)
    }
}

/// Whether a round's player entry wears its overall colour (`Some(true)`),
/// the other one (`Some(false)`), or cannot tell.
pub open spec fn wears_own(entry: (String, Json), ps: Seq<(String, Json)>) -> Option<bool> {
    match team_of(entry.1, "team"@) {
        Some(rt) => match overall_team(ps, entry.0@, ps.len() as int) {
            Some(t) => Some(t == rt),
            None => None,
        },
        None => None,
    }
}

/// How many of the first `n` round entries wear their own (`own`) or the
/// other (`!own`) colour.
pub open spec fn wearing(rp: Seq<(String, Json)>, ps: Seq<(String, Json)>, own: bool, n: int) -> int
    decreases n,
{
    if n <= 0 {
        0
    } else {
        wearing(rp, ps, own, n - 1) + if wears_own(rp[n - 1], ps) == Some(own) {
            1int
        } else {
            0int
        }
    }
}

/// Did the teams wear each other's colours this round? Decided by majority
/// over the round's own player teams, so one mislabelled player cannot flip
/// a round; a round without per-round teams is never swapped.
pub open spec fn swapped_spec(r: Json, ps: Seq<(String, Json)>) -> bool {
    let rp = fields_of(get(r, "players"@));
    wearing(rp, ps, false, rp.len() as int) > wearing(rp, ps, true, rp.len() as int)
}

/// A round that lists no per-round teams is never taken as swapped.
pub proof fn lemma_no_round_teams_no_swap(r: Json, ps: Seq<(String, Json)>)
    requires
        fields_of(get(r, "players"@)).len() == 0,
    ensures
        !swapped_spec(r, ps),
{
}

pub open spec fn is_win(e: Json) -> bool {
    str_of(get(e, "type"@)) == Some("round_win"@)
}

/// The first `round_win` event from index `k` on.
pub open spec fn first_win(es: Seq<Json>, k: int) -> Option<int>
    decreases es.len() - k,
{
    if k < 0 || k >= es.len() {
        None
    } else if is_win(es[k]) {
        Some(k)
    } else {
        first_win(es, k + 1)
    }
}

/// When the round was won, by its first `round_win` event.
pub open spec fn win_time(es: Seq<Json>) -> Option<i64> {
    match first_win(es, 0) {
        Some(i) => int_of(get(es[i], "time"@)),
        None => None,
    }
}

/// Where a round starts on the log's own clock: its win time less its length
/// when the win comes no earlier than the length, else its wall-clock start
/// after the first round's, else 0.
pub open spec fn base_spec(r: Json, first: Option<i64>) -> int {
    let es = items_of(get(r, "events"@));
    let from_win = match (win_time(es), int_of(get(r, "length"@))) {
        (Some(t), Some(len)) => if t >= len {
            Some(t - len)
        } else {
            None
        },
        _ => None,
    };
    match from_win {
        Some(b) => b,
        None => match (start_of(r), first) {
            (Some(s), Some(f)) => if s - f > 0 {
                s - f
            } else {
                0
            },
            _ => 0,
        },
    }
}

/// The account an event's field names.
pub open spec fn id_at(e: Json, key: Seq<char>) -> Option<u32> {
    match str_of(get(e, key)) {
        Some(s) => steam_parse(s),
        None => None,
    }
}

/// An event with a time and a type, timed from the round's start.
pub open spec fn event_spec(e: Json, base: int, swapped: bool) -> Option<EventView> {
    match (int_of(get(e, "time"@)), str_of(get(e, "type"@))) {
        (Some(t), Some(kind)) => Some(
            EventView {
                at_s: (if t - base > 0 {
                    t - base
                } else {
                    0
                }) as i64,
                kind,
                team: stable(team_of(e, "team"@), swapped),
                player: id_at(e, "steamid"@),
                killer: id_at(e, "killer"@),
                medigun: text_of(e, "medigun"@),
                point: int_of(get(e, "point"@)),
            },
        ),
        _ => None,
    }
}

/// The events among the first `n` that are kept.
pub open spec fn events_spec(es: Seq<Json>, base: int, swapped: bool, n: int) -> Seq<EventView>
    decreases n,
{
    if n <= 0 {
        Seq::empty()
    } else {
        let prev = events_spec(es, base, swapped, n - 1);
        match event_spec(es[n - 1], base, swapped) {
            Some(v) => prev.push(v),
            None => prev,
        }
    }
}

/// One colour's numbers as a round writes them.
pub open spec fn round_team_spec(r: Json, colour: Seq<char>) -> RoundTeam {
    let x = get_in(get(r, "team"@), colour);
    RoundTeam {
        kills: int_of(get_in(x, "kills"@)),
        dmg: int_of(get_in(x, "dmg"@)),
        ubers: int_of(get_in(x, "ubers"@)),
    }
}

/// A round's number, counting from 1.
pub open spec fn ordinal(i: int) -> i64 {
    if i < i64::MAX {
        (i + 1) as i64
    } else {
        i64::MAX
    }
}

/// Round `i`, with everything in the teams' stable colours.
pub open spec fn round_spec(r: Json, i: int, first: Option<i64>, ps: Seq<(String, Json)>) -> RoundView {
    let swapped = swapped_spec(r, ps);
    let es = items_of(get(r, "events"@));
    RoundView {
        round_num: ordinal(i),
        start_time: start_of(r),
        length_s: int_of(get(r, "length"@)),
        winner: stable(team_of(r, "winner"@), swapped),
        firstcap: stable(team_of(r, "firstcap"@), swapped),
        red: round_team_spec(
            r,
            if swapped {
                "Blue"@
            } else {
                "Red"@
            },
        ),
        blue: round_team_spec(
            r,
            if swapped {
                "Red"@
            } else {
                "Blue"@
            },
        ),
        events: events_spec(es, base_spec(r, first), swapped, es.len() as int),
        colours_swapped: swapped,
    }
}

/// The log's rounds, in order.
pub open spec fn rounds_spec(raw: Json) -> Seq<RoundView> {
    let rs = items_of(get(raw, "rounds"@));
    let ps = fields_of(get(raw, "players"@));
    Seq::new(rs.len(), |i: int| round_spec(rs[i], i, min_start(rs, rs.len() as int), ps))
}


fn object_in<'a>(v: Option<&'a Json>) -> (r: &'a [(String, Json)])
    ensures
        r@ == fields_of(opt_json(v)),
{
    match v {
        Some(Json::Object(fs)) => fs.as_slice(),
        _ => &[],
    }
}

pub(crate) fn array_in<'a>(v: Option<&'a Json>) -> (r: &'a [Json])
    ensures
        r@ == items_of(opt_json(v)),
{
    match v {
        Some(Json::Array(a)) => a.as_slice(),
        _ => &[],
    }
}

fn stable_in(t: Option<Team>, swapped: bool) -> (r: Option<Team>)
    ensures
        r == stable(t, swapped),
{
    match t {
        Some(x) => Some(
            if swapped {
                x.other()
            } else {
                x
            },
        ),
        None => None,
    }
}

fn earliest_start(rs: &[Json]) -> (r: Option<i64>)
    ensures
        r == min_start(rs@, rs@.len() as int),
{
    let mut m: Option<i64> = None;
    let mut i: usize = 0;
    while i < rs.len()
        invariant
            i <= rs@.len(),
            m == min_start(rs@, i as int),
        decreases rs@.len() - i,
    {
        match as_i64(get_field(&rs[i], "start_time")) {
            Some(s) => {
                m = match m {
                    None => Some(s),
                    Some(x) => Some(
                        if s < x {
                            s
                        } else {
                            x
                        },
                    ),
                };
            },
            None => {},
        }
        i += 1;
    }
    m
}

fn overall_in(ps: &[(String, Json)], id: &[char]) -> (r: Option<Team>)
    ensures
        r == overall_team(ps@, id@, ps@.len() as int),
{
    let mut j: usize = ps.len();
    while j > 0
        invariant
            j <= ps@.len(),
            overall_team(ps@, id@, ps@.len() as int) == overall_team(ps@, id@, j as int),
        decreases j,
    {
        j -= 1;
        let n = chars_of(ps[j].0.as_str());
        if same(n.as_slice(), id) {
            let t = team_field(&ps[j].1, "team");
            if t.is_some() {
                return t;
            }
        }
    }
    None
}

fn colours_swapped(r: &Json, ps: &[(String, Json)]) -> (b: bool)
    ensures
        b == swapped_spec(*r, ps@),
{
    let rp = object_in(get_field(r, "players"));
    let mut own: usize = 0;
    let mut other: usize = 0;
    let mut j: usize = 0;
    while j < rp.len()
        invariant
            j <= rp@.len(),
            rp@ == fields_of(get(*r, "players"@)),
            own == wearing(rp@, ps@, true, j as int),
            other == wearing(rp@, ps@, false, j as int),
            own + other <= j,
        decreases rp@.len() - j,
    {
        match team_field(&rp[j].1, "team") {
            Some(rt) => {
                let id = chars_of(rp[j].0.as_str());
                match overall_in(ps, id.as_slice()) {
                    Some(t) => {
                        if t == rt {
                            own += 1;
                        } else {
                            other += 1;
                        }
                    },
                    None => {},
                }
            },
            None => {},
        }
        j += 1;
    }
    other > own
}

fn is_win_in(e: &Json) -> (b: bool)
    ensures
        b == is_win(*e),
{
    match str_in(get_field(e, "type")) {
        Some(t) => {
            let c = chars_of(t);
            let w = chars_of("round_win");
            same(c.as_slice(), w.as_slice())
        },
        None => false,
    }
}

fn win_time_in(es: &[Json]) -> (r: Option<i64>)
    ensures
        r == win_time(es@),
{
    let mut i: usize = 0;
    while i < es.len()
        invariant
            i <= es@.len(),
            first_win(es@, 0) == first_win(es@, i as int),
        decreases es@.len() - i,
    {
        if is_win_in(&es[i]) {
            return as_i64(get_field(&es[i], "time"));
        }
        i += 1;
    }
    None
}

fn round_base(r: &Json, first: Option<i64>) -> (b: i128)
    ensures
        b == base_spec(*r, first),
        0 <= b <= 2 * (i64::MAX as int) + 1,
{
    let es = array_in(get_field(r, "events"));
    let from_win: Option<i128> = match (win_time_in(es), as_i64(get_field(r, "length"))) {
        (Some(t), Some(len)) => if t >= len {
            Some(t as i128 - len as i128)
        } else {
            None
        },
        _ => None,
    };
    match from_win {
        Some(b) => b,
        None => match (as_i64(get_field(r, "start_time")), first) {
            (Some(s), Some(f)) => {
                let d = s as i128 - f as i128;
                if d > 0 {
                    d
                } else {
                    0
                }
            },
            _ => 0,
        },
    }
}

fn id_field(e: &Json, key: &str) -> (r: Option<SteamId>)
    ensures
        crate::matchdata::opt_id(r) == id_at(*e, key@),
{
    match str_in(get_field(e, key)) {
        Some(s) => match SteamId::parse(s) {
            Ok(x) => Some(x),
            Err(_) => None,
        },
        None => None,
    }
}

fn event(e: &Json, base: i128, swapped: bool) -> (r: Option<EventLine>)
    requires
        0 <= base <= 2 * (i64::MAX as int) + 1,
    ensures
        match event_spec(*e, base as int, swapped) {
            Some(v) => r matches Some(x) && x@ == v,
            None => r is None,
        },
{
    let t = match as_i64(get_field(e, "time")) {
        Some(t) => t,
        None => return None,
    };
    let kind = match str_in(get_field(e, "type")) {
        Some(k) => {
            let c = chars_of(k);
            crate::text::string_of(c.as_slice())
        },
        None => return None,
    };
    let d = t as i128 - base;
    let at_s: i64 = if d > 0 {
        d as i64
    } else {
        0
    };
    Some(
        EventLine {
            at_s,
            kind,
            team: stable_in(team_field(e, "team"), swapped),
            player: id_field(e, "steamid"),
            killer: id_field(e, "killer"),
            medigun: str_field(e, "medigun"),
            point: as_i64(get_field(e, "point")),
        },
    )
}

fn events_in(es: &[Json], base: i128, swapped: bool) -> (r: Vec<EventLine>)
    requires
        0 <= base <= 2 * (i64::MAX as int) + 1,
    ensures
        r@.map_values(|x: EventLine| x@) == events_spec(es@, base as int, swapped, es@.len() as int),
{
    let mut out: Vec<EventLine> = Vec::new();
    let mut i: usize = 0;
    while i < es.len()
        invariant
            i <= es@.len(),
            0 <= base <= 2 * (i64::MAX as int) + 1,
            out@.map_values(|x: EventLine| x@) == events_spec(es@, base as int, swapped, i as int),
        decreases es@.len() - i,
    {
        let ghost before = out@;
        match event(&es[i], base, swapped) {
            Some(x) => {
                out.push(x);
                assert(out@.map_values(|x: EventLine| x@) =~= before.map_values(|x: EventLine| x@).push(
                    x@,
                ));
            },
            None => {},
        }
        i += 1;
    }
    out
}

fn round_team(r: &Json, colour: &str) -> (t: RoundTeam)
    ensures
        t == round_team_spec(*r, colour@),
{
    let x = get_opt(get_field(r, "team"), colour);
    RoundTeam {
        kills: as_i64(get_opt(x, "kills")),
        dmg: as_i64(get_opt(x, "dmg")),
        ubers: as_i64(get_opt(x, "ubers")),
    }
}

fn ordinal_of(i: usize) -> (n: i64)
    ensures
        n == ordinal(i as int),
{
    let w = i as u64;
    if w < 0x7fff_ffff_ffff_ffff {
        (w + 1) as i64
    } else {
        0x7fff_ffff_ffff_ffff
    }
}

fn round_line(r: &Json, i: usize, first: Option<i64>, ps: &[(String, Json)]) -> (line: RoundLine)
    ensures
        line@ == round_spec(*r, i as int, first, ps@),
{
    let swapped = colours_swapped(r, ps);
    let base = round_base(r, first);
    let es = array_in(get_field(r, "events"));
    let (red, blue) = if swapped {
        (round_team(r, "Blue"), round_team(r, "Red"))
    } else {
        (round_team(r, "Red"), round_team(r, "Blue"))
    };
    RoundLine {
        round_num: ordinal_of(i),
        start_time: as_i64(get_field(r, "start_time")),
        length_s: as_i64(get_field(r, "length")),
        winner: stable_in(team_field(r, "winner"), swapped),
        firstcap: stable_in(team_field(r, "firstcap"), swapped),
        red,
        blue,
        events: events_in(es, base, swapped),
        colours_swapped: swapped,
    }
}

/// The log's rounds, in order, each in the teams' stable colours.
fn rounds(raw: &Json) -> (v: Vec<RoundLine>)
    ensures
        v@.map_values(|x: RoundLine| x@) == rounds_spec(*raw),
{
    let rs = array_in(get_field(raw, "rounds"));
    let ps = object_in(get_field(raw, "players"));
    let first = earliest_start(rs);
    let mut out: Vec<RoundLine> = Vec::new();
    let mut i: usize = 0;
    while i < rs.len()
        invariant
            i <= rs@.len(),
            rs@ == items_of(get(*raw, "rounds"@)),
            ps@ == fields_of(get(*raw, "players"@)),
            first == min_start(rs@, rs@.len() as int),
            out@.len() == i,
            forall|j: int| 0 <= j < i ==> #[trigger] out@[j]@ == rounds_spec(*raw)[j],
        decreases rs@.len() - i,
    {
        let line = round_line(&rs[i], i, first, ps);
        out.push(line);
        i += 1;
    }
    assert(out@.map_values(|x: RoundLine| x@) =~= rounds_spec(*raw));
    out
}


// ---------------------------------------------------------------------------
// Players
// ---------------------------------------------------------------------------

/// Whether a players entry becomes a line: its key must name an account and
/// the player must be on a team (spectators and bots are left out).
pub open spec fn kept(key: Seq<char>, p: Json) -> bool {
    steam_parse(key) is Some && team_of(p, "team"@) is Some
}

/// One of the vs tables for a player.
pub open spec fn vs_table(raw: Json, table: Seq<char>, key: Seq<char>) -> Seq<(String, Json)> {
    fields_of(get_in(get(raw, table), key))
}

/// Whether a kept player's class and vs totals all fit in `i64`.
pub open spec fn player_fits(raw: Json, key: Seq<char>, p: Json) -> bool {
    &&& classes_fit(class_entries(p))
    &&& vs_fit(
        vs_table(raw, "classkills"@, key),
        vs_table(raw, "classdeaths"@, key),
        vs_table(raw, "classkillassists"@, key),
    )
}

pub open spec fn player_spec(raw: Json, key: Seq<char>, p: Json) -> PlayerView {
    PlayerView {
        id: steam_parse(key).unwrap(),
        name: str_of(get_in(get(raw, "names"@), key)),
        team: team_of(p, "team"@).unwrap(),
        stats: stats_spec(p),
        classes: class_lines(class_entries(p), 9),
        vs: vs_lines_spec(
            vs_table(raw, "classkills"@, key),
            vs_table(raw, "classdeaths"@, key),
            vs_table(raw, "classkillassists"@, key),
            9,
        ),
    }
}

/// Each total of a player's line is the number the player's logs.tf entry
/// holds under the same name (`as` for airshots), and 0 when the entry has
/// no such field.
pub proof fn lemma_stats_are_the_named_fields(raw: Json, key: Seq<char>, p: Json)
    ensures
        get(p, "kills"@) matches Some(Json::Number(n)) ==> player_spec(raw, key, p).stats.kills == n,
        get(p, "kills"@) is None ==> player_spec(raw, key, p).stats.kills == 0,
        get(p, "deaths"@) matches Some(Json::Number(n)) ==> player_spec(raw, key, p).stats.deaths == n,
        get(p, "deaths"@) is None ==> player_spec(raw, key, p).stats.deaths == 0,
        get(p, "assists"@) matches Some(Json::Number(n)) ==> player_spec(raw, key, p).stats.assists == n,
        get(p, "assists"@) is None ==> player_spec(raw, key, p).stats.assists == 0,
        get(p, "suicides"@) matches Some(Json::Number(n)) ==> player_spec(raw, key, p).stats.suicides == n,
        get(p, "suicides"@) is None ==> player_spec(raw, key, p).stats.suicides == 0,
        get(p, "dmg"@) matches Some(Json::Number(n)) ==> player_spec(raw, key, p).stats.dmg == n,
        get(p, "dmg"@) is None ==> player_spec(raw, key, p).stats.dmg == 0,
        get(p, "dmg_real"@) matches Some(Json::Number(n)) ==> player_spec(raw, key, p).stats.dmg_real == n,
        get(p, "dmg_real"@) is None ==> player_spec(raw, key, p).stats.dmg_real == 0,
        get(p, "dt"@) matches Some(Json::Number(n)) ==> player_spec(raw, key, p).stats.dt == n,
        get(p, "dt"@) is None ==> player_spec(raw, key, p).stats.dt == 0,
        get(p, "dt_real"@) matches Some(Json::Number(n)) ==> player_spec(raw, key, p).stats.dt_real == n,
        get(p, "dt_real"@) is None ==> player_spec(raw, key, p).stats.dt_real == 0,
        get(p, "hr"@) matches Some(Json::Number(n)) ==> player_spec(raw, key, p).stats.hr == n,
        get(p, "hr"@) is None ==> player_spec(raw, key, p).stats.hr == 0,
        get(p, "heal"@) matches Some(Json::Number(n)) ==> player_spec(raw, key, p).stats.heal == n,
        get(p, "heal"@) is None ==> player_spec(raw, key, p).stats.heal == 0,
        get(p, "ubers"@) matches Some(Json::Number(n)) ==> player_spec(raw, key, p).stats.ubers == n,
        get(p, "ubers"@) is None ==> player_spec(raw, key, p).stats.ubers == 0,
        get(p, "drops"@) matches Some(Json::Number(n)) ==> player_spec(raw, key, p).stats.drops == n,
        get(p, "drops"@) is None ==> player_spec(raw, key, p).stats.drops == 0,
        get(p, "headshots"@) matches Some(Json::Number(n)) ==> player_spec(raw, key, p).stats.headshots == n,
        get(p, "headshots"@) is None ==> player_spec(raw, key, p).stats.headshots == 0,
        get(p, "headshots_hit"@) matches Some(Json::Number(n)) ==> player_spec(raw, key, p).stats.headshots_hit == n,
        get(p, "headshots_hit"@) is None ==> player_spec(raw, key, p).stats.headshots_hit == 0,
        get(p, "backstabs"@) matches Some(Json::Number(n)) ==> player_spec(raw, key, p).stats.backstabs == n,
        get(p, "backstabs"@) is None ==> player_spec(raw, key, p).stats.backstabs == 0,
        get(p, "medkits"@) matches Some(Json::Number(n)) ==> player_spec(raw, key, p).stats.medkits == n,
        get(p, "medkits"@) is None ==> player_spec(raw, key, p).stats.medkits == 0,
        get(p, "medkits_hp"@) matches Some(Json::Number(n)) ==> player_spec(raw, key, p).stats.medkits_hp == n,
        get(p, "medkits_hp"@) is None ==> player_spec(raw, key, p).stats.medkits_hp == 0,
        get(p, "sentries"@) matches Some(Json::Number(n)) ==> player_spec(raw, key, p).stats.sentries == n,
        get(p, "sentries"@) is None ==> player_spec(raw, key, p).stats.sentries == 0,
        get(p, "cpc"@) matches Some(Json::Number(n)) ==> player_spec(raw, key, p).stats.cpc == n,
        get(p, "cpc"@) is None ==> player_spec(raw, key, p).stats.cpc == 0,
        get(p, "ic"@) matches Some(Json::Number(n)) ==> player_spec(raw, key, p).stats.ic == n,
        get(p, "ic"@) is None ==> player_spec(raw, key, p).stats.ic == 0,
        get(p, "lks"@) matches Some(Json::Number(n)) ==> player_spec(raw, key, p).stats.lks == n,
        get(p, "lks"@) is None ==> player_spec(raw, key, p).stats.lks == 0,
        get(p, "as"@) matches Some(Json::Number(n)) ==> player_spec(raw, key, p).stats.airshots == n,
        get(p, "as"@) is None ==> player_spec(raw, key, p).stats.airshots == 0,
{
}

/// The lines of the first `n` players entries, in the table's order.
pub open spec fn players_spec(raw: Json, fs: Seq<(String, Json)>, n: int) -> Seq<PlayerView>
    decreases n,
{
    if n <= 0 {
        Seq::empty()
    } else {
        let prev = players_spec(raw, fs, n - 1);
        if kept(fs[n - 1].0@, fs[n - 1].1) {
            prev.push(player_spec(raw, fs[n - 1].0@, fs[n - 1].1))
        } else {
            prev
        }
    }
}

pub open spec fn players_fit(raw: Json, fs: Seq<(String, Json)>, n: int) -> bool {
    forall|j: int|
        0 <= j < n && #[trigger] kept(fs[j].0@, fs[j].1) ==> player_fits(raw, fs[j].0@, fs[j].1)
}

// ---------------------------------------------------------------------------
// Player order: by team name, then account; ties keep their order
// ---------------------------------------------------------------------------

/// "Blue" sorts before "Red".
pub open spec fn team_rank(t: Team) -> int {
    match t {
        Team::Blue => 0,
        Team::Red => 1,
    }
}

/// Whether `a` sorts strictly after `b`.
pub open spec fn sorts_after(a: PlayerView, b: PlayerView) -> bool {
    team_rank(a.team) > team_rank(b.team) || (team_rank(a.team) == team_rank(b.team) && a.id > b.id)
}

/// `x` put into `s` after every line that does not sort after it.
pub open spec fn insert_by_key(s: Seq<PlayerView>, x: PlayerView) -> Seq<PlayerView>
    decreases s.len(),
{
    if s.len() == 0 || !sorts_after(s.last(), x) {
        s.push(x)
    } else {
        insert_by_key(s.drop_last(), x).push(s.last())
    }
}

/// A stable sort by (team name, account).
pub open spec fn sort_by_key(s: Seq<PlayerView>) -> Seq<PlayerView>
    decreases s.len(),
{
    if s.len() == 0 {
        s
    } else {
        insert_by_key(sort_by_key(s.drop_last()), s.last())
    }
}

proof fn lemma_insert_at(s: Seq<PlayerView>, x: PlayerView, j: int)
    requires
        0 <= j <= s.len(),
        forall|i: int| j <= i < s.len() ==> sorts_after(#[trigger] s[i], x),
        j == 0 || !sorts_after(s[j - 1], x),
    ensures
        insert_by_key(s, x) == s.insert(j, x),
    decreases s.len(),
{
    if s.len() == j {
        assert(s.insert(j, x) =~= s.push(x));
    } else {
        let t = s.drop_last();
        assert(sorts_after(s[s.len() - 1], x));
        assert forall|i: int| j <= i < t.len() implies sorts_after(#[trigger] t[i], x) by {
            assert(t[i] == s[i]);
        }
        if j > 0 {
            assert(t[j - 1] == s[j - 1]);
        }
        lemma_insert_at(t, x, j);
        assert(s.insert(j, x) =~= t.insert(j, x).push(s.last()));
    }
}

/// No line sorts after a later one.
pub open spec fn in_key_order(s: Seq<PlayerView>) -> bool {
    forall|i: int, j: int| 0 <= i < j < s.len() ==> !sorts_after(#[trigger] s[i], #[trigger] s[j])
}

proof fn lemma_insert_keeps_order(s: Seq<PlayerView>, x: PlayerView)
    requires
        in_key_order(s),
    ensures
        in_key_order(insert_by_key(s, x)),
        insert_by_key(s, x).to_multiset() =~= s.to_multiset().insert(x),
    decreases s.len(),
{
    broadcast use vstd::seq_lib::group_to_multiset_ensures;

    if s.len() == 0 || !sorts_after(s.last(), x) {
        let r = s.push(x);
        assert forall|i: int, j: int| 0 <= i < j < r.len() implies !sorts_after(#[trigger] r[i], #[trigger] r[j]) by {
            if j == s.len() && i < s.len() - 1 {
                assert(!sorts_after(s[i], s[s.len() - 1]));
            }
        }
    } else {
        let t = s.drop_last();
        let last = s.last();
        assert(s =~= t.push(last));
        assert(in_key_order(t)) by {
            assert forall|i: int, j: int| 0 <= i < j < t.len() implies !sorts_after(#[trigger] t[i], #[trigger] t[j]) by {
                assert(t[i] == s[i] && t[j] == s[j]);
            }
        }
        lemma_insert_keeps_order(t, x);
        let r = insert_by_key(t, x);
        assert forall|i: int| 0 <= i < r.len() implies !sorts_after(#[trigger] r[i], last) by {
            let y = r[i];
            assert(r.to_multiset().count(y) > 0);
            if y != x {
                assert(t.to_multiset().count(y) > 0);
                assert(t.contains(y));
                let k = choose|k: int| 0 <= k < t.len() && t[k] == y;
                assert(s[k] == y);
                assert(!sorts_after(s[k], s[s.len() - 1]));
            }
        }
        let q = r.push(last);
        assert forall|i: int, j: int| 0 <= i < j < q.len() implies !sorts_after(#[trigger] q[i], #[trigger] q[j]) by {
            if j == r.len() {
                assert(q[i] == r[i]);
            } else {
                assert(q[i] == r[i] && q[j] == r[j]);
            }
        }
        assert(insert_by_key(s, x) == q);
    }
}

/// Sorting the player lines puts them in key order, by team name and then
/// account, and keeps exactly the same lines.
pub proof fn lemma_sort_orders(s: Seq<PlayerView>)
    ensures
        in_key_order(sort_by_key(s)),
        sort_by_key(s).to_multiset() =~= s.to_multiset(),
    decreases s.len(),
{
    broadcast use vstd::seq_lib::group_to_multiset_ensures;

    if s.len() > 0 {
        lemma_sort_orders(s.drop_last());
        lemma_insert_keeps_order(sort_by_key(s.drop_last()), s.last());
        assert(s =~= s.drop_last().push(s.last()));
    }
}

fn sorts_after_in(a: &PlayerLine, b: &PlayerLine) -> (r: bool)
    ensures
        r == sorts_after(a@, b@),
{
    let ra: u8 = match a.team {
        Team::Blue => 0,
        Team::Red => 1,
    };
    let rb: u8 = match b.team {
        Team::Blue => 0,
        Team::Red => 1,
    };
    ra > rb || (ra == rb && a.id.account_id() > b.id.account_id())
}

/// Player lines as plain values.
pub open spec fn player_views(v: Seq<PlayerLine>) -> Seq<PlayerView> {
    v.map_values(|x: PlayerLine| x@)
}

/// Sorts the lines by (team name, account), keeping the order of ties.
fn sort_players(v: Vec<PlayerLine>) -> (r: Vec<PlayerLine>)
    ensures
        player_views(r@) == sort_by_key(player_views(v@)),
{
    let ghost src = player_views(v@);
    let total = v.len();
    assert(src.len() == total);
    let mut rest = v;
    let mut out: Vec<PlayerLine> = Vec::new();
    let mut n: usize = 0;
    while rest.len() > 0
        invariant
            n + rest@.len() == src.len(),
            src.len() <= usize::MAX,
            player_views(rest@) == src.skip(n as int),
            player_views(out@) == sort_by_key(src.take(n as int)),
        decreases rest@.len(),
    {
        let ghost sorted = player_views(out@);
        let ghost before = rest@;
        let x = rest.remove(0);
        proof {
            assert(player_views(before)[0] == src.skip(n as int)[0]);
            assert(x@ == src.skip(n as int)[0]);
            assert forall|i: int| 0 <= i < rest@.len() implies #[trigger] player_views(rest@)[i] == src.skip(n + 1)[i] by {
                assert(rest@[i] == before[i + 1]);
                assert(player_views(before)[i + 1] == src.skip(n as int)[i + 1]);
            }
            assert(player_views(rest@) =~= src.skip(n + 1));
        }
        let mut j: usize = out.len();
        while j > 0 && sorts_after_in(&out[j - 1], &x)
            invariant
                j <= out@.len(),
                player_views(out@) == sorted,
                forall|i: int| j <= i < sorted.len() ==> sorts_after(#[trigger] sorted[i], x@),
            decreases j,
        {
            j -= 1;
        }
        proof {
            lemma_insert_at(sorted, x@, j as int);
            assert(src.take(n + 1).drop_last() =~= src.take(n as int));
            assert(src.take(n + 1).last() == x@);
        }
        out.insert(j, x);
        proof {
            assert(player_views(out@) =~= sorted.insert(j as int, x@));
        }
        n += 1;
    }
    assert(src.take(n as int) =~= src);
    out
}


fn player_lines(raw: &Json, fs: &[(String, Json)]) -> (r: Option<Vec<PlayerLine>>)
    ensures
        players_fit(*raw, fs@, fs@.len() as int) ==> (r matches Some(v) && player_views(v@) == players_spec(
            *raw,
            fs@,
            fs@.len() as int,
        )),
        !players_fit(*raw, fs@, fs@.len() as int) ==> r is None,
{
    let names = get_field(raw, "names");
    let kills = get_field(raw, "classkills");
    let deaths = get_field(raw, "classdeaths");
    let assists = get_field(raw, "classkillassists");
    let mut out: Vec<PlayerLine> = Vec::new();
    let mut i: usize = 0;
    while i < fs.len()
        invariant
            i <= fs@.len(),
            opt_json(names) == get(*raw, "names"@),
            opt_json(kills) == get(*raw, "classkills"@),
            opt_json(deaths) == get(*raw, "classdeaths"@),
            opt_json(assists) == get(*raw, "classkillassists"@),
            players_fit(*raw, fs@, i as int),
            player_views(out@) == players_spec(*raw, fs@, i as int),
        decreases fs@.len() - i,
    {
        let key = fs[i].0.as_str();
        let p = &fs[i].1;
        let ghost before = out@;
        let ghost is_kept = kept(key@, *p);
        let id = match SteamId::parse(key) {
            Ok(x) => Some(x),
            Err(_) => None,
        };
        let team = team_field(p, "team");
        if let (Some(id), Some(team)) = (id, team) {
            assert(is_kept);
            let classes = match classes(p) {
                Some(c) => c,
                None => {
                    assert(kept(fs@[i as int].0@, fs@[i as int].1));
                    return None;
                },
            };
            let k = object_in(get_opt(kills, key));
            let d = object_in(get_opt(deaths, key));
            let a = object_in(get_opt(assists, key));
            let vs = match vs_lines(k, d, a) {
                Some(v) => v,
                None => {
                    assert(kept(fs@[i as int].0@, fs@[i as int].1));
                    return None;
                },
            };
            let name = match str_in(get_opt(names, key)) {
                Some(s) => {
                    let c = chars_of(s);
                    Some(crate::text::string_of(c.as_slice()))
                },
                None => None,
            };
            let line = PlayerLine { id, name, team, stats: stats(p), classes, vs };
            assert(line@ == player_spec(*raw, key@, *p));
            out.push(line);
            assert(player_views(out@) =~= player_views(before).push(line@));
        } else {
            assert(!is_kept);
        }
        assert(players_fit(*raw, fs@, i + 1)) by {
            assert forall|j: int|
                0 <= j < i + 1 && #[trigger] kept(fs@[j].0@, fs@[j].1) implies player_fits(
                *raw,
                fs@[j].0@,
                fs@[j].1,
            ) by {
                if j < i {
                    assert(kept(fs@[j].0@, fs@[j].1));
                }
            }
        }
        i += 1;
    }
    Some(out)
}

// ---------------------------------------------------------------------------
// The whole log
// ---------------------------------------------------------------------------

/// The players table, when the log has one.
pub open spec fn players_table(raw: Json) -> Option<Seq<(String, Json)>> {
    match get(raw, "players"@) {
        Some(Json::Object(fs)) => Some(fs@),
        _ => None,
    }
}

/// The `info` object, or `null`.
pub open spec fn info_of(raw: Json) -> Json {
    match get(raw, "info"@) {
        Some(v) => v,
        None => Json::Null,
    }
}

/// A team's score from the `teams` table, or 0.
pub open spec fn score_spec(raw: Json, colour: Seq<char>) -> i64 {
    match get_in(get(raw, "teams"@), colour) {
        Some(x) => int_or0(x, "score"@),
        None => 0,
    }
}

pub open spec fn no_players_message(log_id: i64) -> Seq<char> {
    "log "@ + idec(log_id as int) + ": no players object"@
}

pub open spec fn too_large_message(log_id: i64) -> Seq<char> {
    "log "@ + idec(log_id as int) + ": a player's totals do not fit in 64 bits"@
}

/// Everything a normalized log holds, given the players table `fs`.
pub open spec fn normalized(n: NormalizedLog, log_id: i64, raw: Json, fs: Seq<(String, Json)>) -> bool {
    let info = info_of(raw);
    &&& n.log_id == log_id
    &&& crate::matchdata::opt_text(n.title) == text_of(info, "title"@)
    &&& crate::matchdata::opt_text(n.map) == text_of(info, "map"@)
    &&& n.played_at == int_of(get(info, "date"@))
    &&& n.duration_s == int_or0(raw, "length"@)
    &&& n.red_score == score_spec(raw, "Red"@)
    &&& n.blue_score == score_spec(raw, "Blue"@)
    &&& n.flags == flags_spec(info)
    &&& player_views(n.players@) == sort_by_key(players_spec(raw, fs, fs.len() as int))
    &&& n.rounds@.map_values(|x: RoundLine| x@) == rounds_spec(raw)
}

fn message(log_id: i64, tail: &str) -> (m: String)
    ensures
        m@ == "log "@ + idec(log_id as int) + tail@,
{
    let mut c: Vec<char> = Vec::new();
    push_str(&mut c, "log ");
    push_signed(&mut c, log_id);
    push_str(&mut c, tail);
    crate::text::string_of(c.as_slice())
}

fn score_in(raw: &Json, colour: &str) -> (s: i64)
    ensures
        s == score_spec(*raw, colour@),
{
    match get_opt(get_field(raw, "teams"), colour) {
        Some(x) => int_field(x, "score"),
        None => 0,
    }
}

/// What `normalize` gives for a log: an error when there is no players
/// object or a player's totals leave `i64`, else the normalized log.
pub open spec fn normalize_outcome(r: Result<NormalizedLog, String>, log_id: i64, raw: Json) -> bool {
    &&& players_table(raw) is None ==> (r matches Err(m) && m@ == no_players_message(log_id))
    &&& players_table(raw) matches Some(fs) ==> (!players_fit(raw, fs, fs.len() as int) ==> (r matches Err(m)
        && m@ == too_large_message(log_id)))
    &&& players_table(raw) matches Some(fs) ==> (players_fit(raw, fs, fs.len() as int) ==> (r matches Ok(n)
        && normalized(n, log_id, raw, fs)))
}

/// A logs.tf log as a [`NormalizedLog`]. Players are ordered by team name,
/// then account, so the output is the same for the same input; players whose
/// key names no account, and those on no team, are left out.
pub fn normalize(log_id: i64, raw: &Json) -> (r: Result<NormalizedLog, String>)
    ensures
        normalize_outcome(r, log_id, *raw),
{
    let fs = match get_field(raw, "players") {
        Some(Json::Object(fs)) => fs,
        _ => return Err(message(log_id, ": no players object")),
    };
    let lines = match player_lines(raw, fs.as_slice()) {
        Some(v) => v,
        None => return Err(message(log_id, ": a player's totals do not fit in 64 bits")),
    };
    let players = sort_players(lines);
    let null = Json::Null;
    let info = match get_field(raw, "info") {
        Some(v) => v,
        None => &null,
    };
    Ok(
        NormalizedLog {
            log_id,
            title: str_field(info, "title"),
            map: str_field(info, "map"),
            played_at: as_i64(get_field(info, "date")),
            duration_s: int_field(raw, "length"),
            red_score: score_in(raw, "Red"),
            blue_score: score_in(raw, "Blue"),
            flags: flags(info),
            players,
            rounds: rounds(raw),
        },
    )
}


// ---------------------------------------------------------------------------
// JSON text
// ---------------------------------------------------------------------------

/// What `serde_json` reads from a text: its JSON tree, or `None` when the
/// text is not JSON.
pub uninterp spec fn logs_json(text: Seq<char>) -> Option<Json>;

/// `serde_json::from_str::<Value>`, each value converted one for one: an
/// `i64` number as `Number`, any other number as the text `serde_json`
/// writes for it, an object's fields in the order the `Value` holds them.
/// The tree is taken to depend on the text alone.
#[verifier::external_body]
pub(crate) fn read_logs_json(text: &str) -> (r: Option<Json>)
    ensures
        r == logs_json(text@),
{
    serde_json::from_str::<serde_json::Value>(text).ok().map(|v| json_of_value(&v))
}

/// `serde_json`'s JSON value, carried through opaque.
#[verifier::external_type_specification]
#[verifier::external_body]
pub struct ExJsonValue(serde_json::Value);

/// The conversion of [`read_logs_json`]: one `Json` for each `Value`.
#[verifier::external_body]
fn json_of_value(v: &serde_json::Value) -> Json {
    match v {
        serde_json::Value::Null => Json::Null,
        serde_json::Value::Bool(b) => Json::Bool(*b),
        serde_json::Value::Number(n) => match n.as_i64() {
            Some(i) => Json::Number(i),
            None => Json::NumberText(n.to_string()),
        },
        serde_json::Value::String(s) => Json::Str(s.clone()),
        serde_json::Value::Array(a) => Json::Array(a.iter().map(json_of_value).collect()),
        serde_json::Value::Object(m) => Json::Object(m.iter().map(|(k, x)| (k.clone(), json_of_value(x))).collect()),
    }
}

pub open spec fn not_json_message(log_id: i64) -> Seq<char> {
    "log "@ + idec(log_id as int) + " is not valid JSON"@
}

/// A logs.tf log, as the JSON text logs.tf sends, as a [`NormalizedLog`].
pub fn normalize_text(log_id: i64, text: &str) -> (r: Result<NormalizedLog, String>)
    ensures
        match logs_json(text@) {
            None => r matches Err(m) && m@ == not_json_message(log_id),
            Some(j) => normalize_outcome(r, log_id, j),
        },
{
    match read_logs_json(text) {
        Some(j) => normalize(log_id, &j),
        None => Err(message(log_id, " is not valid JSON")),
    }
}

/// The `start_time` of each round that has one as an `i64` number.
pub open spec fn starts_of(rs: Seq<Json>, n: int) -> Seq<i64>
    decreases n,
{
    if n <= 0 {
        Seq::empty()
    } else {
        match get(rs[n - 1], "start_time"@) {
            Some(Json::Number(t)) => starts_of(rs, n - 1).push(t),
            _ => starts_of(rs, n - 1),
        }
    }
}

pub open spec fn start_times(j: Json) -> Seq<i64> {
    let rs = items_of(get(j, "rounds"@));
    starts_of(rs, rs.len() as int)
}

/// logs.tf's round start times in a log's JSON text; none when the text is
/// not JSON.
pub fn round_starts(json: &str) -> (r: Vec<i64>)
    ensures
        r@ == match logs_json(json@) {
            Some(j) => start_times(j),
            None => Seq::empty(),
        },
{
    let mut out: Vec<i64> = Vec::new();
    let j = match read_logs_json(json) {
        Some(j) => j,
        None => return out,
    };
    let rs = array_in(get_field(&j, "rounds"));
    let mut i: usize = 0;
    while i < rs.len()
        invariant
            i <= rs@.len(),
            rs@ == items_of(get(j, "rounds"@)),
            out@ == starts_of(rs@, i as int),
        decreases rs@.len() - i,
    {
        match get_field(&rs[i], "start_time") {
            Some(Json::Number(t)) => out.push(*t),
            _ => {},
        }
        i += 1;
    }
    out
}

/// Every item is an `i64` number.
pub open spec fn all_ids(a: Seq<Json>) -> bool {
    forall|i: int| 0 <= i < a.len() ==> (#[trigger] a[i]) is Number
}

pub open spec fn ids_of(a: Seq<Json>) -> Seq<i64> {
    a.map_values(|x: Json| x->Number_0)
}

/// The ids a JSON list holds; none when there is no text, it is not JSON,
/// or it is not a list of `i64` numbers.
pub fn parse_ids(json: Option<&str>) -> (r: Vec<i64>)
    ensures
        r@ == match json {
            Some(t) => match logs_json(t@) {
                Some(Json::Array(a)) => if all_ids(a@) {
                    ids_of(a@)
                } else {
                    Seq::empty()
                },
                _ => Seq::empty(),
            },
            None => Seq::empty(),
        },
{
    let mut out: Vec<i64> = Vec::new();
    let t = match json {
        Some(t) => t,
        None => return out,
    };
    let j = match read_logs_json(t) {
        Some(j) => j,
        None => return out,
    };
    let a = match &j {
        Json::Array(a) => a,
        _ => return out,
    };
    let mut i: usize = 0;
    while i < a.len()
        invariant
            json == Some(t),
            logs_json(t@) == Some(j),
            j == Json::Array(*a),
            i <= a@.len(),
            out@.len() == i,
            all_ids(a@.take(i as int)),
            forall|x: int| 0 <= x < i ==> out@[x] == ids_of(a@)[x],
        decreases a@.len() - i,
    {
        match &a[i] {
            Json::Number(n) => out.push(*n),
            _ => {
                assert(!all_ids(a@)) by {
                    assert(!(a@[i as int] is Number));
                }
                return Vec::new();
            },
        }
        i += 1;
        assert(all_ids(a@.take(i as int))) by {
            assert forall|x: int| 0 <= x < i implies (#[trigger] a@.take(i as int)[x]) is Number by {
                if x < i - 1 {
                    assert(a@.take(i as int)[x] == a@.take(i - 1)[x]);
                }
            }
        }
    }
    assert(a@.take(a@.len() as int) =~= a@);
    assert(out@ =~= ids_of(a@));
    out
}

} // verus!
