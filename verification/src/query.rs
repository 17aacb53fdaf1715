//! The pieces of SQL the match list and the aim pages are built from. No
//! value from outside is ever pasted into them: a sort is looked up in a
//! fixed list, and every filter is a parameter.
use crate::text::{chars_of, push_str, same, string_of};
use vstd::prelude::*;

verus! {

#[derive(Debug, Clone, Default)]
pub struct MatchFilter {
    /// `None` means every format.
    pub format: Option<String>,
    /// `official`, `scrim` or `pug`; `None` means every kind.
    pub kind: Option<String>,
    /// Played between these, unix seconds, inclusive. `None` is open.
    pub from: Option<i64>,
    pub to: Option<i64>,
    /// The owner's main class in the match, e.g. `sniper`.
    pub class: Option<String>,
    /// A map, without its version.
    pub map: Option<String>,
    pub limit: i64,
    pub offset: i64,
    /// What to order by: one of [`sort_expr`]'s keys; anything else falls
    /// back to `date`.
    pub sort: Option<String>,
    /// Smallest first, rather than the usual biggest (or newest) first.
    pub ascending: bool,
    /// The rating model whose scores the `rating` sort and column use.
    pub model_version: String,
}

/// The orderings the match list offers, as SQL. The owner's line is `p`,
/// so `p.kills IS NULL` puts matches they did not play last either way.
pub open spec fn sort_spec(key: Seq<char>) -> Option<Seq<char>> {
    if key == "date"@ {
        Some("m.played_at"@)
    } else if key == "kills"@ {
        Some("p.kills"@)
    } else if key == "deaths"@ {
        Some("p.deaths"@)
    } else if key == "assists"@ {
        Some("p.assists"@)
    } else if key == "dmg"@ {
        Some("p.dmg"@)
    } else if key == "dpm"@ {
        Some("CASE WHEN COALESCE(p.time_s, 0) > 0 THEN p.dmg * 60.0 / p.time_s END"@)
    } else if key == "kd"@ {
        Some("CASE WHEN COALESCE(p.deaths, 0) > 0 THEN p.kills * 1.0 / p.deaths ELSE p.kills END"@)
    } else if key == "rating"@ {
        Some("r.score"@)
    } else {
        None
    }
}

fn is(k: &[char], lit: &str) -> (b: bool)
    ensures
        b == (k@ == lit@),
{
    let l = chars_of(lit);
    same(k, l.as_slice())
}

/// The SQL a sort key stands for, when it is one of the list's.
pub fn sort_expr(key: &str) -> (r: Option<&'static str>)
    ensures
        match sort_spec(key@) {
            Some(e) => r matches Some(s) && s@ == e,
            None => r is None,
        },
{
    let k = chars_of(key);
    let k = k.as_slice();
    if is(k, "date") {
        Some("m.played_at")
    } else if is(k, "kills") {
        Some("p.kills")
    } else if is(k, "deaths") {
        Some("p.deaths")
    } else if is(k, "assists") {
        Some("p.assists")
    } else if is(k, "dmg") {
        Some("p.dmg")
    } else if is(k, "dpm") {
        Some("CASE WHEN COALESCE(p.time_s, 0) > 0 THEN p.dmg * 60.0 / p.time_s END")
    } else if is(k, "kd") {
        Some("CASE WHEN COALESCE(p.deaths, 0) > 0 THEN p.kills * 1.0 / p.deaths ELSE p.kills END")
    } else if is(k, "rating") {
        Some("r.score")
    } else {
        None
    }
}

/// The expression a filter sorts by: its key's, or the date's.
pub open spec fn order_expr(sort: Option<Seq<char>>) -> Seq<char> {
    let key = match sort {
        Some(k) => k,
        None => "date"@,
    };
    match sort_spec(key) {
        Some(e) => e,
        None => "m.played_at"@,
    }
}

/// `ORDER BY` for the match list: rows without a value last whichever way
/// round, then the chosen direction, then newest first.
pub open spec fn order_by_spec(sort: Option<Seq<char>>, ascending: bool) -> Seq<char> {
    let e = order_expr(sort);
    "ORDER BY ("@ + e + ") IS NULL, ("@ + e + ") "@ + (if ascending {
        "ASC"@
    } else {
        "DESC"@
    }) + ", m.played_at DESC, m.log_id DESC"@
}

pub fn order_by(f: &MatchFilter) -> (r: String)
    ensures
        r@ == order_by_spec(
            match f.sort {
                Some(s) => Some(s@),
                None => None,
            },
            f.ascending,
        ),
{
    let expr = match &f.sort {
        Some(k) => match sort_expr(k.as_str()) {
            Some(e) => e,
            None => "m.played_at",
        },
        None => {
            proof {
                reveal_strlit("date");
                reveal_strlit("m.played_at");
            }
            "m.played_at"
        },
    };
    let dir = if f.ascending {
        "ASC"
    } else {
        "DESC"
    };
    let mut out: Vec<char> = Vec::new();
    push_str(&mut out, "ORDER BY (");
    push_str(&mut out, expr);
    push_str(&mut out, ") IS NULL, (");
    push_str(&mut out, expr);
    push_str(&mut out, ") ");
    push_str(&mut out, dir);
    push_str(&mut out, ", m.played_at DESC, m.log_id DESC");
    string_of(out.as_slice())
}

/// The rows of `table` an aim filter covers, as a `WHERE` clause over
/// `?1..?6`: log, class (of the owner, `?6`), kind, and the two dates.
pub open spec fn scope_spec(table: Seq<char>) -> Seq<char> {
    "WHERE (?1 IS NULL OR "@ + table + ".log_id = ?1)
           AND (?2 IS NULL OR EXISTS (SELECT 1 FROM match_player mp
                                      WHERE mp.log_id = "@ + table
        + ".log_id AND mp.account_id = ?6
                                        AND mp.main_class = ?2))
           AND (?3 IS NULL OR EXISTS (SELECT 1 FROM match_context c
                                      WHERE c.log_id = "@ + table + ".log_id AND c.kind = ?3))
           AND (?4 IS NULL OR EXISTS (SELECT 1 FROM match m WHERE m.log_id = "@ + table
        + ".log_id AND m.played_at >= ?4))
           AND (?5 IS NULL OR EXISTS (SELECT 1 FROM match m WHERE m.log_id = "@ + table
        + ".log_id AND m.played_at <= ?5))"@
}

pub fn scope(table: &str) -> (r: String)
    ensures
        r@ == scope_spec(table@),
{
    let mut out: Vec<char> = Vec::new();
    push_str(&mut out, "WHERE (?1 IS NULL OR ");
    push_str(&mut out, table);
    push_str(
        &mut out,
        ".log_id = ?1)
           AND (?2 IS NULL OR EXISTS (SELECT 1 FROM match_player mp
                                      WHERE mp.log_id = ",
    );
    push_str(&mut out, table);
    push_str(
        &mut out,
        ".log_id AND mp.account_id = ?6
                                        AND mp.main_class = ?2))
           AND (?3 IS NULL OR EXISTS (SELECT 1 FROM match_context c
                                      WHERE c.log_id = ",
    );
    push_str(&mut out, table);
    push_str(
        &mut out,
        ".log_id AND c.kind = ?3))
           AND (?4 IS NULL OR EXISTS (SELECT 1 FROM match m WHERE m.log_id = ",
    );
    push_str(&mut out, table);
    push_str(
        &mut out,
        ".log_id AND m.played_at >= ?4))
           AND (?5 IS NULL OR EXISTS (SELECT 1 FROM match m WHERE m.log_id = ",
    );
    push_str(&mut out, table);
    push_str(&mut out, ".log_id AND m.played_at <= ?5))");
    string_of(out.as_slice())
}

/// A sort from outside the list can never reach the query: it orders as
/// the date does.
pub proof fn lemma_unknown_sort_is_the_date(key: Seq<char>, ascending: bool)
    requires
        sort_spec(key) is None,
    ensures
        order_by_spec(Some(key), ascending) == order_by_spec(None, ascending),
{
}

/// Whatever the sort and direction, rows without a value come last: the
/// clause starts by ordering on whether the value is missing.
pub proof fn lemma_missing_values_last(sort: Option<Seq<char>>, ascending: bool)
    ensures
        order_by_spec(sort, ascending).take(20 + order_expr(sort).len() as int) == "ORDER BY ("@
            + order_expr(sort) + ") IS NULL,"@,
{
    reveal_strlit("ORDER BY (");
    reveal_strlit(") IS NULL,");
    reveal_strlit(") IS NULL, (");
    let e = order_expr(sort);
    assert(order_by_spec(sort, ascending).take(20 + e.len() as int) =~= "ORDER BY ("@ + e
        + ") IS NULL,"@);
}

/// The owner's result in a match from the two scores: `W` when the owner's
/// side scored more, `L` when less, `T` on a tie or a missing score. A team
/// other than `Red` is taken as Blue.
pub open spec fn result_spec(team: Seq<char>, red: Option<i64>, blue: Option<i64>) -> Seq<char> {
    let (mine, theirs) = if team == "Red"@ {
        (red, blue)
    } else {
        (blue, red)
    };
    match (mine, theirs) {
        (Some(a), Some(b)) => if a > b {
            "W"@
        } else if a < b {
            "L"@
        } else {
            "T"@
        },
        _ => "T"@,
    }
}

/// [`result_spec`].
pub fn match_result(team: &str, red: Option<i64>, blue: Option<i64>) -> (r: &'static str)
    ensures
        r@ == result_spec(team@, red, blue),
{
    let t = chars_of(team);
    let red_name = chars_of("Red");
    let (mine, theirs) = if same(t.as_slice(), red_name.as_slice()) {
        (red, blue)
    } else {
        (blue, red)
    };
    match (mine, theirs) {
        (Some(a), Some(b)) => if a > b {
            "W"
        } else if a < b {
            "L"
        } else {
            "T"
        },
        _ => "T",
    }
}

} // verus!
