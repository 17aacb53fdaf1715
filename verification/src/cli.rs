//! The small text rules of the command-line harness: dates in and out,
//! column truncation, and reading flags.
use crate::text::{
    chars_of, dec, div_floor, find_at, find_from, lemma_find_from_bounds, parse_i64, parse_i64_of,
    push_all, push_decimal, push_str, same, slice_of, string_of,
};
use vstd::prelude::*;

verus! {

pub const DAY_S: i64 = 86_400;

/// Days since 1970-01-01 of a proleptic Gregorian date (Howard Hinnant's
/// `days_from_civil`), for a month and day of month that are not negative.
pub open spec fn civil_days(y: int, m: int, d: int) -> int {
    let y = if m <= 2 {
        y - 1
    } else {
        y
    };
    let era = y / 400;
    let yoe = y - era * 400;
    let doy = (153 * ((m + 9) % 12) + 2) / 5 + d - 1;
    let doe = yoe * 365 + yoe / 4 - yoe / 100 + doy;
    era * 146_097 + doe - 719_468
}

/// The three `-`-separated fields of a `YYYY-MM-DD` date, when there are
/// exactly three and each reads as a number.
pub open spec fn day_fields(s: Seq<char>) -> Option<(int, int, int)> {
    match find_from(s, seq!['-'], 0) {
        None => None,
        Some(a) => match find_from(s, seq!['-'], a + 1) {
            None => None,
            Some(b) => if find_from(s, seq!['-'], b + 1) is Some {
                None
            } else {
                match (
                    parse_i64(s.take(a)),
                    parse_i64(s.subrange(a + 1, b)),
                    parse_i64(s.skip(b + 1)),
                ) {
                    (Some(y), Some(m), Some(d)) => Some((y, m, d)),
                    _ => None,
                }
            },
        },
    }
}

pub open spec fn in_i64(v: int) -> bool {
    i64::MIN <= v <= i64::MAX
}

/// Every step of `days_from_civil` on `i64`, in the order it is computed,
/// stays inside `i64`.
pub open spec fn civil_fits(y: int, m: int, d: int) -> bool {
    let y1 = if m <= 2 {
        y - 1
    } else {
        y
    };
    let era = y1 / 400;
    let yoe = y1 - era * 400;
    let a = (153 * ((m + 9) % 12) + 2) / 5;
    let doe = yoe * 365 + yoe / 4 - yoe / 100 + (a + d - 1);
    &&& in_i64(y1)
    &&& in_i64(era * 400)
    &&& in_i64(m + 9)
    &&& in_i64(a + d)
    &&& in_i64(a + d - 1)
    &&& in_i64(doe)
    &&& in_i64(era * 146_097)
    &&& in_i64(era * 146_097 + doe)
    &&& in_i64(era * 146_097 + doe - 719_468)
}

/// Dates whose seconds the computation reaches without leaving `i64`.
pub open spec fn day_in_range(s: Seq<char>) -> bool {
    day_fields(s) matches Some((y, m, d)) ==> civil_fits(y, m, d) && in_i64(
        civil_days(y, m, d) * 86_400,
    )
}

/// `YYYY-MM-DD` as unix seconds at midnight UTC; anything else is refused.
pub open spec fn parse_day_spec(s: Seq<char>) -> Option<int> {
    match day_fields(s) {
        Some((y, m, d)) => Some(civil_days(y, m, d) * 86_400),
        None => None,
    }
}

proof fn lemma_fields_nonneg(s: Seq<char>, a: int, b: int)
    requires
        0 <= a < b < s.len(),
        forall|j: int| a < j < b ==> s[j] != '-',
        forall|j: int| b < j < s.len() ==> s[j] != '-',
    ensures
        parse_i64(s.subrange(a + 1, b)) matches Some(m) ==> m >= 0,
        parse_i64(s.skip(b + 1)) matches Some(d) ==> d >= 0,
{
    let ms = s.subrange(a + 1, b);
    if ms.len() > 0 {
        assert(ms[0] == s[a + 1]);
    }
    let ds = s.skip(b + 1);
    if ds.len() > 0 {
        assert(ds[0] == s[b + 1]);
    }
}

/// `YYYY-MM-DD` as unix seconds at midnight UTC.
pub fn parse_day(s: &str) -> (r: Result<i64, String>)
    requires
        day_in_range(s@),
    ensures
        parse_day_spec(s@) matches Some(v) ==> r == Ok::<i64, String>(v as i64),
        parse_day_spec(s@) is None ==> r is Err,
{
    let cs = chars_of(s);
    let c = cs.as_slice();
    let dash: [char; 1] = ['-'];
    assert(dash@ =~= seq!['-']);
    let fields = match find_at(c, dash.as_slice(), 0) {
        None => None,
        Some(a) => {
            proof {
                lemma_find_from_bounds(c@, seq!['-'], 0);
                assert(crate::text::is_at(c@, a as int, seq!['-']));
                assert(a + 1 <= c@.len());
            }
            match find_at(c, dash.as_slice(), a + 1) {
                None => None,
                Some(b) => {
                    proof {
                        lemma_find_from_bounds(c@, seq!['-'], a + 1);
                        assert(crate::text::is_at(c@, b as int, seq!['-']));
                        assert(b + 1 <= c@.len());
                    }
                    if find_at(c, dash.as_slice(), b + 1).is_some() {
                        None
                    } else {
                        proof {
                            lemma_find_from_bounds(c@, seq!['-'], b + 1);
                            assert forall|j: int| a < j < b implies c@[j] != '-' by {
                                if c@[j] == '-' {
                                    assert(c@.subrange(j, j + 1) =~= seq!['-']);
                                    assert(crate::text::is_at(c@, j, seq!['-']));
                                }
                            }
                            assert forall|j: int| b < j < c@.len() implies c@[j] != '-' by {
                                if c@[j] == '-' {
                                    assert(c@.subrange(j, j + 1) =~= seq!['-']);
                                    assert(crate::text::is_at(c@, j, seq!['-']));
                                }
                            }
                            lemma_fields_nonneg(c@, a as int, b as int);
                        }
                        let ys = slice_of(c, 0, a);
                        let ms = slice_of(c, a + 1, b);
                        let ds = slice_of(c, b + 1, c.len());
                        assert(ys@ == c@.take(a as int));
                        assert(ds@ == c@.skip(b + 1));
                        match (
                            parse_i64_of(ys.as_slice()),
                            parse_i64_of(ms.as_slice()),
                            parse_i64_of(ds.as_slice()),
                        ) {
                            (Some(y), Some(m), Some(d)) => Some((y, m, d)),
                            _ => None,
                        }
                    }
                },
            }
        },
    };
    match fields {
        Some((y, m, d)) => {
            assert(m >= 0 && d >= 0);
            Ok(days_from_civil(y, m, d) * 86_400)
        },
        None => {
            let mut msg: Vec<char> = Vec::new();
            push_str(&mut msg, "dates are YYYY-MM-DD, got `");
            push_all(&mut msg, c);
            msg.push('`');
            Err(string_of(msg.as_slice()))
        },
    }
}

/// Days since 1970-01-01 of a proleptic Gregorian date.
pub fn days_from_civil(y: i64, m: i64, d: i64) -> (r: i64)
    requires
        -9 <= m,
        civil_fits(y as int, m as int, d as int),
    ensures
        r == civil_days(y as int, m as int, d as int),
{
    let y = if m <= 2 {
        y - 1
    } else {
        y
    };
    let era = div_floor(y, 400);
    assert(0 <= y - era * 400 < 400) by (nonlinear_arith)
        requires
            era == y as int / 400,
    ;
    let yoe = y - era * 400;
    let mp = (m + 9) % 12;
    let doy = (153 * mp + 2) / 5 + d - 1;
    let doe = yoe * 365 + yoe / 4 - yoe / 100 + doy;
    era * 146_097 + doe - 719_468
}

/// The year within its 400-year era, the month and the day of a day of
/// the era (counted from March 1st of the era's first year).
pub open spec fn era_date(doe: int) -> (int, int, int) {
    let yoe = (doe - doe / 1_460 + doe / 36_524 - doe / 146_096) / 365;
    let doy = doe - (365 * yoe + yoe / 4 - yoe / 100);
    let mp = (5 * doy + 2) / 153;
    let d = doy - (153 * mp + 2) / 5 + 1;
    let m = if mp < 10 {
        mp + 3
    } else {
        mp - 9
    };
    let y = yoe + if m <= 2 {
        1int
    } else {
        0int
    };
    (y, m, d)
}

/// The calendar date of a day count: `(year, month, day)` (Howard Hinnant's
/// `civil_from_days`).
pub open spec fn civil_from_days(days: int) -> (int, int, int) {
    let z = days + 719_468;
    let era = z / 146_097;
    let (y, m, d) = era_date(z - era * 146_097);
    (y + era * 400, m, d)
}

pub open spec fn zeros_for(width: int, len: int) -> nat {
    if width > len {
        (width - len) as nat
    } else {
        0
    }
}

/// `n` zero-padded to `width` characters, as `{:0width}` writes it.
pub open spec fn pad_spec(n: int, width: int) -> Seq<char> {
    if n >= 0 {
        Seq::new(zeros_for(width, dec(n as nat).len() as int), |i: int| '0') + dec(n as nat)
    } else {
        seq!['-'] + Seq::new(zeros_for(width - 1, dec((-n) as nat).len() as int), |i: int| '0')
            + dec((-n) as nat)
    }
}

fn push_padded(out: &mut Vec<char>, n: i64, width: usize)
    requires
        n > i64::MIN,
        width <= 8,
    ensures
        final(out)@ == old(out)@ + pad_spec(n as int, width as int),
{
    let mut digits: Vec<char> = Vec::new();
    let mag: u64 = if n >= 0 {
        n as u64
    } else {
        (-n) as u64
    };
    push_decimal(&mut digits, mag);
    assert(digits@ == dec(mag as nat));
    let room: usize = if n >= 0 {
        width
    } else {
        if width > 0 {
            width - 1
        } else {
            0
        }
    };
    if n < 0 {
        out.push('-');
    }
    let ghost start = out@;
    let fill: usize = if room > digits.len() {
        room - digits.len()
    } else {
        0
    };
    let mut k: usize = 0;
    while k < fill
        invariant
            k <= fill,
            out@ == start + Seq::new(k as nat, |i: int| '0'),
        decreases fill - k,
    {
        out.push('0');
        k += 1;
        assert(out@ =~= start + Seq::new(k as nat, |i: int| '0'));
    }
    push_all(out, digits.as_slice());
    proof {
        if n >= 0 {
            assert(fill == zeros_for(width as int, dec(n as nat).len() as int));
            assert(final(out)@ =~= old(out)@ + pad_spec(n as int, width as int));
        } else {
            assert(fill == zeros_for(width - 1, dec((-n) as nat).len() as int));
            assert(final(out)@ =~= old(out)@ + pad_spec(n as int, width as int));
        }
    }
}

fn era_date_of(doe: i64) -> (r: (i64, i64, i64))
    requires
        0 <= doe < 146_097,
    ensures
        (r.0 as int, r.1 as int, r.2 as int) == era_date(doe as int),
        -1_000_000 <= r.0 <= 1_000_000,
        -1_000_000 <= r.1 <= 1_000_000,
        -1_000_000 <= r.2 <= 1_000_000,
{
    let yoe = (doe - doe / 1_460 + doe / 36_524 - doe / 146_096) / 365;
    let doy = doe - (365 * yoe + yoe / 4 - yoe / 100);
    let mp = (5 * doy + 2) / 153;
    let d = doy - (153 * mp + 2) / 5 + 1;
    let m = if mp < 10 {
        mp + 3
    } else {
        mp - 9
    };
    let y = yoe + if m <= 2 {
        1
    } else {
        0
    };
    (y, m, d)
}

/// The calendar date of a day count, for day counts of unix times.
fn civil_of(days: i64) -> (r: (i64, i64, i64))
    requires
        -200_000_000_000_000 <= days <= 200_000_000_000_000,
    ensures
        (r.0 as int, r.1 as int, r.2 as int) == civil_from_days(days as int),
        -1_000_000_000_000 <= r.0 <= 1_000_000_000_000,
        -1_000_000 <= r.1 <= 1_000_000,
        -1_000_000 <= r.2 <= 1_000_000,
{
    let z = days + 719_468;
    let era = div_floor(z, 146_097);
    let doe = z - era * 146_097;
    assert(0 <= doe < 146_097 && -2_000_000_000 <= era <= 2_000_000_000) by (nonlinear_arith)
        requires
            era == z as int / 146_097,
            doe == z - era * 146_097,
            -200_000_000_000_000 <= z <= 200_000_000_719_468,
    ;
    let (y, m, d) = era_date_of(doe);
    (y + era * 400, m, d)
}

/// `YYYY-MM-DD` for a unix time, in UTC.
pub fn fmt_date(unix: i64) -> (r: String)
    ensures
        r@ == ({
            let (y, m, d) = civil_from_days(unix as int / 86_400);
            pad_spec(y, 4) + seq!['-'] + pad_spec(m, 2) + seq!['-'] + pad_spec(d, 2)
        }),
{
    let days = div_floor(unix, 86_400);
    assert(-200_000_000_000_000 <= days <= 200_000_000_000_000) by (nonlinear_arith)
        requires
            days == unix as int / 86_400,
    ;
    let (y, m, d) = civil_of(days);
    let mut out: Vec<char> = Vec::new();
    push_padded(&mut out, y, 4);
    out.push('-');
    push_padded(&mut out, m, 2);
    out.push('-');
    push_padded(&mut out, d, 2);
    string_of(out.as_slice())
}

/// At most `n` characters of `s`: longer text keeps `n - 1` and ends in `…`.
pub open spec fn truncate_spec(s: Seq<char>, n: int) -> Seq<char> {
    if s.len() <= n {
        s
    } else {
        s.take(n - 1).push('…')
    }
}

pub fn truncate(s: &str, n: usize) -> (r: String)
    requires
        s@.len() <= n || n >= 1,
    ensures
        r@ == truncate_spec(s@, n as int),
{
    let cs = chars_of(s);
    if cs.len() <= n {
        string_of(cs.as_slice())
    } else {
        let mut out = slice_of(cs.as_slice(), 0, n - 1);
        out.push('…');
        string_of(out.as_slice())
    }
}

/// The kind filter named by a `--official`, `--scrim` or `--pug` argument:
/// the first of those three, in that order, that any argument names.
pub open spec fn kind_flag_spec(args: Seq<Seq<char>>) -> Option<Seq<char>> {
    if args.contains("--official"@) {
        Some("official"@)
    } else if args.contains("--scrim"@) {
        Some("scrim"@)
    } else if args.contains("--pug"@) {
        Some("pug"@)
    } else {
        None
    }
}

pub open spec fn views(args: Seq<&str>) -> Seq<Seq<char>> {
    args.map_values(|a: &str| a@)
}

fn has_arg(args: &[&str], want: &str) -> (b: bool)
    ensures
        b == views(args@).contains(want@),
{
    let w = chars_of(want);
    let mut i: usize = 0;
    while i < args.len()
        invariant
            i <= args@.len(),
            w@ == want@,
            forall|k: int| 0 <= k < i ==> #[trigger] args@[k]@ != want@,
        decreases args@.len() - i,
    {
        let a = chars_of(args[i]);
        if same(a.as_slice(), w.as_slice()) {
            assert(views(args@)[i as int] == want@);
            return true;
        }
        i += 1;
    }
    assert forall|k: int| 0 <= k < views(args@).len() implies views(args@)[k] != want@ by {
        assert(views(args@)[k] == args@[k]@);
    }
    false
}

pub fn kind_flag(args: &[&str]) -> (r: Option<&'static str>)
    ensures
        r matches Some(x) ==> kind_flag_spec(views(args@)) == Some(x@),
        r is None ==> kind_flag_spec(views(args@)) is None,
{
    if has_arg(args, "--official") {
        Some("official")
    } else if has_arg(args, "--scrim") {
        Some("scrim")
    } else if has_arg(args, "--pug") {
        Some("pug")
    } else {
        None
    }
}

/// The first position of `flag` among the arguments.
pub open spec fn flag_at(args: Seq<Seq<char>>, flag: Seq<char>, n: int) -> Option<int>
    decreases n,
{
    if n <= 0 {
        None
    } else {
        match flag_at(args, flag, n - 1) {
            Some(i) => Some(i),
            None => if args[n - 1] == flag {
                Some(n - 1)
            } else {
                None
            },
        }
    }
}

/// The text after a flag: `None` when the flag is absent, `Some(None)` when
/// nothing follows it, and `Some(Some(v))` for its value. The caller parses
/// the value and refuses the flag when that fails.
pub fn flag_text(args: &[&str], flag: &str) -> (r: Option<Option<String>>)
    ensures
        ({
            let vs = views(args@);
            match flag_at(vs, flag@, vs.len() as int) {
                None => r is None,
                Some(i) => if i + 1 < vs.len() {
                    r matches Some(Some(v)) && v@ == vs[i + 1]
                } else {
                    r matches Some(None)
                },
            }
        }),
{
    let f = chars_of(flag);
    let mut i: usize = 0;
    while i < args.len()
        invariant
            i <= args@.len(),
            f@ == flag@,
            flag_at(views(args@), flag@, i as int) is None,
        decreases args@.len() - i,
    {
        let a = chars_of(args[i]);
        if same(a.as_slice(), f.as_slice()) {
            assert(views(args@)[i as int] == flag@);
            proof {
                lemma_flag_at_stable(views(args@), flag@, i + 1, args@.len() as int);
            }
            if i + 1 < args.len() {
                let v = chars_of(args[i + 1]);
                assert(views(args@)[i + 1] == args@[i + 1]@);
                return Some(Some(string_of(v.as_slice())));
            } else {
                return Some(None);
            }
        }
        assert(views(args@)[i as int] == args@[i as int]@);
        i += 1;
    }
    None
}

proof fn lemma_flag_at_stable(args: Seq<Seq<char>>, flag: Seq<char>, n: int, m: int)
    requires
        0 < n <= m,
        flag_at(args, flag, n) is Some,
    ensures
        flag_at(args, flag, m) == flag_at(args, flag, n),
    decreases m - n,
{
    if m > n {
        lemma_flag_at_stable(args, flag, n, m - 1);
    }
}

} // verus!
