//! SteamID handling.
//!
//! logs.tf keys players by SteamID3 (`[U:1:12345]`), RGL and demos.tf use
//! SteamID64, and players paste whatever their profile shows them. Every
//! conversion goes through here so the formats can never drift apart.
use crate::error::Error;
use crate::text::{
    all_digits, chars_of, dec, find_at, find_char, find_from, has_prefix, lemma_find_from_bounds, lemma_rfind_bounds,
    is_digit, lemma_absent, lemma_dec, lemma_parse_dec, lemma_trim_noop, parse_u32, parse_u32_of, parse_u64, parse_u64_of, push_all, push_decimal, push_str, rfind,
    rfind_in, slice_of, starts_with, string_of, trim, trim_end_char, trim_end_of, trim_start, trim_start_char, trim_start_of, trimmed,
};
use vstd::prelude::*;

verus! {

/// Offset between a Steam account id and its 64-bit form (individual accounts).
pub const STEAMID64_BASE: u64 = 76_561_197_960_265_728;

/// A Steam account, stored canonically as its 32-bit account id.
#[derive(Debug, Clone, Copy, PartialEq, Eq, Structural, Hash, PartialOrd, Ord)]
pub struct SteamId(u32);

impl View for SteamId {
    type V = u32;

    closed spec fn view(&self) -> u32 {
        self.0
    }
}

/// The account a SteamID64 names, when it is an individual account.
pub open spec fn from_u64_spec(v: nat) -> Option<u32> {
    if v < STEAMID64_BASE || v - STEAMID64_BASE > u32::MAX {
        None
    } else {
        Some((v - STEAMID64_BASE) as u32)
    }
}

/// The `Y:Z` parts of a SteamID2 after `STEAM_`: `X:Y:Z` with exactly two colons.
pub open spec fn steam2_spec(rest: Seq<char>) -> Option<u32> {
    match find_char(rest, ':') {
        None => None,
        Some(a) => match find_from(rest, seq![':'], a + 1) {
            None => None,
            Some(b) => if find_from(rest, seq![':'], b + 1) is Some {
                None
            } else {
                match (parse_u32(rest.subrange(a + 1, b)), parse_u32(rest.skip(b + 1))) {
                    (Some(y), Some(z)) => if y > 1 || z * 2 + y > u32::MAX {
                        None
                    } else {
                        Some((z * 2 + y) as u32)
                    },
                    _ => None,
                }
            },
        },
    }
}

/// SteamID3 with or without its brackets, or a bare number: a SteamID64 when
/// it is large enough, otherwise an account id.
pub open spec fn steam3_or_number_spec(t: Seq<char>) -> Option<u32> {
    let u = trim_end_char(trim_start_char(t, '['), ']');
    if starts_with(u, "U:1:"@) || starts_with(u, "u:1:"@) {
        match parse_u32(u.skip(4)) {
            Some(v) => Some(v as u32),
            None => None,
        }
    } else {
        match parse_u64(t) {
            Some(v) => if v >= STEAMID64_BASE {
                from_u64_spec(v)
            } else if v <= u32::MAX {
                Some(v as u32)
            } else {
                None
            },
            None => None,
        }
    }
}

/// The account any accepted form names: SteamID64, SteamID3 with or without
/// brackets, SteamID2, or a community profile URL (its last path segment).
pub open spec fn steam_parse(s: Seq<char>) -> Option<u32>
    decreases s.len(),
{
    let t = trim(s);
    if t.len() == 0 {
        None
    } else if rfind(t, "/profiles/"@) is Some {
        let i = rfind(t, "/profiles/"@)->0;
        let id = trim_end_char(t.skip(i + "/profiles/"@.len()), '/');
        if id.len() < s.len() {
            steam_parse(id)
        } else {
            None
        }
    } else if starts_with(t, "STEAM_"@) || starts_with(t, "steam_"@) {
        steam2_spec(t.skip(6))
    } else {
        steam3_or_number_spec(t)
    }
}

pub open spec fn steamid64_text(id: u32) -> Seq<char> {
    dec((STEAMID64_BASE + id) as nat)
}

pub open spec fn steamid3_text(id: u32) -> Seq<char> {
    "[U:1:"@ + dec(id as nat) + "]"@
}

pub open spec fn steamid2_text(id: u32) -> Seq<char> {
    "STEAM_0:"@ + dec((id % 2) as nat) + ":"@ + dec((id / 2) as nat)
}

fn lit(s: &str) -> (v: Vec<char>)
    ensures
        v@ == s@,
{
    chars_of(s)
}

/// An error message: `head`, the offending text in backquotes, then `tail`.
fn quoted(head: &str, s: &[char], tail: &str) -> (e: Error)
    ensures
        e is InvalidSteamId,
{
    let mut m: Vec<char> = Vec::new();
    push_str(&mut m, head);
    m.push('`');
    push_all(&mut m, s);
    m.push('`');
    push_str(&mut m, tail);
    Error::InvalidSteamId(string_of(m.as_slice()))
}

fn numbered(v: u64, tail: &str) -> (e: Error)
    ensures
        e is InvalidSteamId,
{
    let mut m: Vec<char> = Vec::new();
    push_decimal(&mut m, v);
    push_str(&mut m, tail);
    Error::InvalidSteamId(string_of(m.as_slice()))
}

impl SteamId {
    pub fn from_account_id(id: u32) -> (r: Self)
        ensures
            r@ == id,
    {
        SteamId(id)
    }

    pub fn account_id(self) -> (r: u32)
        ensures
            r == self@,
    {
        self.0
    }

    pub fn as_u64(self) -> (r: u64)
        ensures
            r == STEAMID64_BASE + self@,
    {
        STEAMID64_BASE + self.0 as u64
    }

    /// `76561198000000000`: the form used by RGL, demos.tf and the logs.tf
    /// search endpoint.
    pub fn to_steamid64(self) -> (r: String)
        ensures
            r@ == steamid64_text(self@),
    {
        let mut out: Vec<char> = Vec::new();
        push_decimal(&mut out, self.as_u64());
        string_of(out.as_slice())
    }

    /// `[U:1:12345]`: the form logs.tf uses as its player map key.
    pub fn to_steamid3(self) -> (r: String)
        ensures
            r@ == steamid3_text(self@),
    {
        let mut out: Vec<char> = Vec::new();
        push_str(&mut out, "[U:1:");
        push_decimal(&mut out, self.0 as u64);
        push_str(&mut out, "]");
        string_of(out.as_slice())
    }

    /// `STEAM_0:1:12345`: the legacy form, still what some sites display.
    pub fn to_steamid2(self) -> (r: String)
        ensures
            r@ == steamid2_text(self@),
    {
        let mut out: Vec<char> = Vec::new();
        push_str(&mut out, "STEAM_0:");
        push_decimal(&mut out, (self.0 % 2) as u64);
        push_str(&mut out, ":");
        push_decimal(&mut out, (self.0 / 2) as u64);
        string_of(out.as_slice())
    }

    /// The account behind a SteamID64; refused below the individual-account
    /// range or past the last account id.
    pub fn from_u64(v: u64) -> (r: Result<Self, Error>)
        ensures
            from_u64_spec(v as nat) matches Some(id) ==> r matches Ok(x) && x@ == id,
            from_u64_spec(v as nat) is None ==> r matches Err(Error::InvalidSteamId(_)),
    {
        if v < STEAMID64_BASE {
            return Err(numbered(v, " is below the individual-account range"));
        }
        let account = v - STEAMID64_BASE;
        if account > u32::MAX as u64 {
            Err(numbered(v, " is out of range"))
        } else {
            Ok(SteamId(account as u32))
        }
    }

    /// Accepts every form a user might realistically paste: SteamID64,
    /// SteamID3 with or without brackets, SteamID2, or a community profile URL.
    pub fn parse(input: &str) -> (r: Result<Self, Error>)
        ensures
            steam_parse(input@) matches Some(id) ==> r matches Ok(x) && x@ == id,
            steam_parse(input@) is None ==> r matches Err(Error::InvalidSteamId(_)),
    {
        let cs = chars_of(input);
        Self::parse_chars(cs.as_slice())
    }

    fn parse_chars(s: &[char]) -> (r: Result<Self, Error>)
        ensures
            steam_parse(s@) matches Some(id) ==> r matches Ok(x) && x@ == id,
            steam_parse(s@) is None ==> r matches Err(Error::InvalidSteamId(_)),
        decreases s@.len(),
    {
        let tv = trimmed(s);
        let t = tv.as_slice();
        if t.len() == 0 {
            let e = lit("empty input");
            return Err(Error::InvalidSteamId(string_of(e.as_slice())));
        }
        // Profile URL: take the trailing path segment and read that.
        let marker = lit("/profiles/");
        proof {
            reveal_strlit("/profiles/");
        }
        if let Some(i) = rfind_in(t, marker.as_slice()) {
            proof {
                lemma_rfind_bounds(t@, marker@, t@.len() - marker@.len());
            }
            let hi = trim_end_of(t, i + 10, '/');
            let id = slice_of(t, i + 10, hi);
            proof {
                crate::text::lemma_trim_start_suffix(s@);
                crate::text::lemma_trim_end_prefix(trim_start(s@));
            }
            return Self::parse_chars(id.as_slice());
        }
        let upper = lit("STEAM_");
        let lower = lit("steam_");
        if has_prefix(t, upper.as_slice()) || has_prefix(t, lower.as_slice()) {
            proof {
                reveal_strlit("STEAM_");
                reveal_strlit("steam_");
            }
            let rest = slice_of(t, 6, t.len());
            assert(rest@ == t@.skip(6));
            return match Self::steam2(rest.as_slice()) {
                Some(v) => Ok(SteamId(v)),
                None => Err(quoted("malformed SteamID2 ", t, "")),
            };
        }
        match Self::steam3_or_number(t) {
            Some(v) => Ok(SteamId(v)),
            None => Err(quoted("unrecognised format ", t, "")),
        }
    }

    fn steam2(rest: &[char]) -> (r: Option<u32>)
        ensures
            r == steam2_spec(rest@),
    {
        let colon: [char; 1] = [':'];
        let colon = colon.as_slice();
        assert(colon@ =~= seq![':']);
        let a = match find_at(rest, colon, 0) {
            Some(a) => a,
            None => return None,
        };
        proof {
            lemma_find_from_bounds(rest@, seq![':'], 0);
            assert(crate::text::is_at(rest@, a as int, seq![':']));
        }
        assert(a < rest.len());
        let b = match find_at(rest, colon, a + 1) {
            Some(b) => b,
            None => return None,
        };
        proof {
            lemma_find_from_bounds(rest@, seq![':'], a + 1);
            assert(crate::text::is_at(rest@, b as int, seq![':']));
        }
        assert(b < rest.len());
        if find_at(rest, colon, b + 1).is_some() {
            return None;
        }
        let ys = slice_of(rest, a + 1, b);
        let zs = slice_of(rest, b + 1, rest.len());
        assert(zs@ == rest@.skip(b + 1));
        let y = match parse_u32_of(ys.as_slice()) {
            Some(y) => y,
            None => return None,
        };
        let z = match parse_u32_of(zs.as_slice()) {
            Some(z) => z,
            None => return None,
        };
        if y > 1 || z > (u32::MAX - y) / 2 {
            return None;
        }
        Some(z * 2 + y)
    }

    fn steam3_or_number(t: &[char]) -> (r: Option<u32>)
        ensures
            r == steam3_or_number_spec(t@),
    {
        let lo = trim_start_of(t, '[');
        let hi = trim_end_of(t, lo, ']');
        let u = slice_of(t, lo, hi);
        let up = lit("U:1:");
        let low = lit("u:1:");
        if has_prefix(u.as_slice(), up.as_slice()) || has_prefix(u.as_slice(), low.as_slice()) {
            proof {
                reveal_strlit("U:1:");
                reveal_strlit("u:1:");
            }
            let digits = slice_of(u.as_slice(), 4, u.len());
            assert(digits@ == u@.skip(4));
            return parse_u32_of(digits.as_slice());
        }
        match parse_u64_of(t) {
            Some(v) => {
                if v >= STEAMID64_BASE {
                    let account = v - STEAMID64_BASE;
                    if account > u32::MAX as u64 {
                        None
                    } else {
                        Some(account as u32)
                    }
                } else if v <= u32::MAX as u64 {
                    Some(v as u32)
                } else {
                    None
                }
            },
            None => None,
        }
    }
}

} // verus!

verus! {

/// Every character of `s` is a digit, so `c` (not a digit) is not in it.
proof fn lemma_digits_lack(s: Seq<char>, c: char)
    requires
        all_digits(s),
        !is_digit(c),
    ensures
        forall|i: int| 0 <= i < s.len() ==> s[i] != c,
{
    assert forall|i: int| 0 <= i < s.len() implies s[i] != c by {
        assert(is_digit(s[i]));
    }
}

/// A SteamID64 reads back as the account it was written from.
pub proof fn lemma_steamid64_round_trip(id: u32)
    ensures
        steam_parse(steamid64_text(id)) == Some(id),
{
    let n: nat = (STEAMID64_BASE + id) as nat;
    let t = dec(n);
    reveal_strlit("/profiles/");
    reveal_strlit("STEAM_");
    reveal_strlit("steam_");
    reveal_strlit("U:1:");
    reveal_strlit("u:1:");
    lemma_dec(n);
    assert(is_digit(t[0]));
    assert(is_digit(t.last()));
    lemma_trim_noop(t);
    lemma_digits_lack(t, '/');
    lemma_absent(t, "/profiles/"@, 0);
    assert(trim_start_char(t, '[') == t);
    assert(trim_end_char(t, ']') == t);
    assert(!starts_with(t, "STEAM_"@)) by {
        if t.len() >= 6 {
            assert(t.subrange(0, 6)[0] == t[0]);
        }
    }
    assert(!starts_with(t, "steam_"@)) by {
        if t.len() >= 6 {
            assert(t.subrange(0, 6)[0] == t[0]);
        }
    }
    assert(!starts_with(t, "U:1:"@)) by {
        if t.len() >= 4 {
            assert(t.subrange(0, 4)[0] == t[0]);
        }
    }
    assert(!starts_with(t, "u:1:"@)) by {
        if t.len() >= 4 {
            assert(t.subrange(0, 4)[0] == t[0]);
        }
    }
    assert(t[0] != '+');
    lemma_parse_dec(n, u64::MAX as nat);
}

/// A SteamID3 reads back as the account it was written from.
pub proof fn lemma_steamid3_round_trip(id: u32)
    ensures
        steam_parse(steamid3_text(id)) == Some(id),
{
    let d = dec(id as nat);
    let s = steamid3_text(id);
    reveal_strlit("/profiles/");
    reveal_strlit("STEAM_");
    reveal_strlit("steam_");
    reveal_strlit("U:1:");
    reveal_strlit("u:1:");
    reveal_strlit("[U:1:");
    reveal_strlit("]");
    lemma_dec(id as nat);
    assert(s.len() == d.len() + 6);
    assert(s[0] == '[');
    assert(s.last() == ']');
    lemma_trim_noop(s);
    assert forall|i: int| 0 <= i < s.len() implies s[i] != '/' by {
        if 5 <= i < 5 + d.len() {
            assert(s[i] == d[i - 5]);
            assert(is_digit(d[i - 5]));
        }
    }
    lemma_absent(s, "/profiles/"@, 0);
    assert(!starts_with(s, "STEAM_"@)) by {
        assert(s.subrange(0, 6)[0] == s[0]);
    }
    assert(!starts_with(s, "steam_"@)) by {
        assert(s.subrange(0, 6)[0] == s[0]);
    }
    let a = s.drop_first();
    assert(a[0] == 'U');
    assert(trim_start_char(a, '[') == a);
    assert(trim_start_char(s, '[') == a);
    let b = a.drop_last();
    assert(b =~= "U:1:"@ + d);
    assert(b.last() == d.last());
    assert(is_digit(d.last()));
    assert(trim_end_char(b, ']') == b);
    assert(trim_end_char(a, ']') == b);
    assert(starts_with(b, "U:1:"@)) by {
        assert(b.subrange(0, 4) =~= "U:1:"@);
    }
    assert(b.skip(4) =~= d);
    lemma_parse_dec(id as nat, u32::MAX as nat);
}

/// A SteamID2 reads back as the account it was written from.
pub proof fn lemma_steamid2_round_trip(id: u32)
    ensures
        steam_parse(steamid2_text(id)) == Some(id),
{
    let y: nat = (id % 2) as nat;
    let z: nat = (id / 2) as nat;
    let dy = dec(y);
    let dz = dec(z);
    let s = steamid2_text(id);
    reveal_strlit("/profiles/");
    reveal_strlit("STEAM_");
    reveal_strlit("STEAM_0:");
    reveal_strlit(":");
    lemma_dec(y);
    lemma_dec(z);
    assert(dy.len() == 1);
    assert(s.len() == dz.len() + 10);
    assert(s[0] == 'S');
    assert(s.last() == dz.last());
    assert(is_digit(dz.last()));
    lemma_trim_noop(s);
    assert forall|i: int| 0 <= i < s.len() implies s[i] != '/' by {
        if 10 <= i {
            assert(s[i] == dz[i - 10]);
            assert(is_digit(dz[i - 10]));
        } else if i == 8 {
            assert(s[i] == dy[0]);
            assert(is_digit(dy[0]));
        }
    }
    lemma_absent(s, "/profiles/"@, 0);
    assert(starts_with(s, "STEAM_"@)) by {
        assert(s.subrange(0, 6) =~= "STEAM_"@);
    }
    let rest = s.skip(6);
    assert(rest =~= seq!['0', ':'] + dy + seq![':'] + dz);
    assert(is_digit(dy[0]));
    assert(!crate::text::is_at(rest, 0, seq![':'])) by {
        assert(rest.subrange(0, 1)[0] == rest[0]);
    }
    assert(crate::text::is_at(rest, 1, seq![':'])) by {
        assert(rest.subrange(1, 2) =~= seq![':']);
    }
    assert(find_from(rest, seq![':'], 1) == Some(1int));
    assert(find_char(rest, ':') == Some(1int));
    assert(!crate::text::is_at(rest, 2, seq![':'])) by {
        assert(rest.subrange(2, 3)[0] == rest[2]);
    }
    assert(crate::text::is_at(rest, 3, seq![':'])) by {
        assert(rest.subrange(3, 4) =~= seq![':']);
    }
    assert(find_from(rest, seq![':'], 3) == Some(3int));
    assert(find_from(rest, seq![':'], 2) == Some(3int));
    assert(rest.skip(4) =~= dz);
    assert forall|j: int| 4 <= j implies !crate::text::is_at(rest, j, seq![':']) by {
        if crate::text::is_at(rest, j, seq![':']) {
            assert(rest.subrange(j, j + 1)[0] == rest[j]);
            assert(rest[j] == dz[j - 4]);
            assert(is_digit(dz[j - 4]));
        }
    }
    crate::text::lemma_find_none(rest, seq![':'], 4);
    assert(rest.subrange(2, 3) =~= dy);
    lemma_parse_dec(y, u32::MAX as nat);
    lemma_parse_dec(z, u32::MAX as nat);
}

} // verus!
