//! The owner's name and profile picture, for the top of the window.
//!
//! The ETF2L profile fetched on every sync carries the Steam name and
//! avatar link; anyone without an ETF2L account falls back to Steam's
//! public profile XML. The picture is kept as a data URL, so it shows
//! offline. Fetching and storing are the caller's; reading the answers and
//! deciding what to keep are here.
use crate::normalize::{get, get_field, logs_json, opt_json, read_logs_json, str_of, Json};
use crate::steamid::{steamid64_text, SteamId};
use crate::text::{
    chars_of, find, find_at, has_prefix, has_suffix, lemma_find_from_bounds, push_all, push_str,
    slice_of, starts_with, string_of, strip_prefix, strip_suffix, trim, trimmed,
};
use vstd::prelude::*;

verus! {

/// Who the app belongs to, as the window shows them.
#[derive(Debug, Clone)]
pub struct Owner {
    pub steamid64: String,
    pub name: Option<String>,
    /// A `data:` URL, ready for an `<img>`.
    pub avatar: Option<String>,
}

// ---------------------------------------------------------------------------
// Steam's profile XML
// ---------------------------------------------------------------------------

/// `<tag>value</tag>`, or `<tag><![CDATA[value]]></tag>`: the value trimmed,
/// when it is not blank.
pub open spec fn xml_value_spec(xml: Seq<char>, tag: Seq<char>) -> Option<Seq<char>> {
    let open = seq!['<'] + tag + seq!['>'];
    let close = seq!['<', '/'] + tag + seq!['>'];
    match find(xml, open) {
        None => None,
        Some(i) => {
            let start = i + open.len();
            match find(xml.skip(start), close) {
                None => None,
                Some(l) => {
                    let v = trim(xml.subrange(start, start + l));
                    let inner = match strip_prefix(v, "<![CDATA["@) {
                        Some(x) => match strip_suffix(x, "]]>"@) {
                            Some(y) => y,
                            None => v,
                        },
                        None => v,
                    };
                    if trim(inner).len() == 0 {
                        None
                    } else {
                        Some(trim(inner))
                    }
                },
            }
        },
    }
}

/// `<tag><![CDATA[value]]></tag>` or `<tag>value</tag>`.
pub fn xml_value(xml: &str, tag: &str) -> (r: Option<String>)
    ensures
        match xml_value_spec(xml@, tag@) {
            Some(v) => r matches Some(s) && s@ == v,
            None => r is None,
        },
{
    let x = chars_of(xml);
    let mut open: Vec<char> = Vec::new();
    open.push('<');
    push_str(&mut open, tag);
    open.push('>');
    let mut close: Vec<char> = Vec::new();
    close.push('<');
    close.push('/');
    push_str(&mut close, tag);
    close.push('>');
    assert(open@ =~= seq!['<'] + tag@ + seq!['>']);
    assert(close@ =~= seq!['<', '/'] + tag@ + seq!['>']);
    let i = match find_at(x.as_slice(), open.as_slice(), 0) {
        None => return None,
        Some(i) => i,
    };
    proof {
        lemma_find_from_bounds(x@, open@, 0);
        assert(crate::text::is_at(x@, i as int, open@));
    }
    let ol = open.len();
    assert(i + ol <= x@.len());
    assert(x@.len() == x.len());
    let start = i + ol;
    let rest = slice_of(x.as_slice(), start, x.len());
    assert(rest@ =~= x@.skip(start as int));
    let l = match find_at(rest.as_slice(), close.as_slice(), 0) {
        None => return None,
        Some(l) => l,
    };
    proof {
        lemma_find_from_bounds(rest@, close@, 0);
        assert(crate::text::is_at(rest@, l as int, close@));
    }
    let body = slice_of(x.as_slice(), start, start + l);
    let v = trimmed(body.as_slice());
    let pre = chars_of("<![CDATA[");
    let post = chars_of("]]>");
    let inner = if has_prefix(v.as_slice(), pre.as_slice()) {
        let after = slice_of(v.as_slice(), pre.len(), v.len());
        assert(after@ =~= v@.skip(pre@.len() as int));
        if has_suffix(after.as_slice(), post.as_slice()) {
            let y = slice_of(after.as_slice(), 0, after.len() - post.len());
            assert(y@ =~= after@.take(after@.len() - post@.len()));
            y
        } else {
            v
        }
    } else {
        v
    };
    let t = trimmed(inner.as_slice());
    if t.len() == 0 {
        None
    } else {
        Some(string_of(t.as_slice()))
    }
}

/// A link to a picture served over HTTPS.
pub open spec fn https(s: Seq<char>) -> bool {
    starts_with(s, "https://"@)
}

fn is_https(s: &String) -> (b: bool)
    ensures
        b == https(s@),
{
    let c = chars_of(s.as_str());
    let p = chars_of("https://");
    has_prefix(c.as_slice(), p.as_slice())
}

/// The name and picture link in Steam's profile XML; a link not served
/// over HTTPS is dropped.
pub fn from_steam_xml(xml: &str) -> (r: (Option<String>, Option<String>))
    ensures
        match xml_value_spec(xml@, "steamID"@) {
            Some(v) => r.0 matches Some(s) && s@ == v,
            None => r.0 is None,
        },
        match xml_value_spec(xml@, "avatarFull"@) {
            Some(v) => if https(v) {
                r.1 matches Some(s) && s@ == v
            } else {
                r.1 is None
            },
            None => r.1 is None,
        },
{
    let name = xml_value(xml, "steamID");
    let avatar = match xml_value(xml, "avatarFull") {
        Some(a) => if is_https(&a) {
            Some(a)
        } else {
            None
        },
        None => None,
    };
    (name, avatar)
}

// ---------------------------------------------------------------------------
// The ETF2L profile
// ---------------------------------------------------------------------------

pub open spec fn text_view(o: Option<String>) -> Option<Seq<char>> {
    match o {
        Some(s) => Some(s@),
        None => None,
    }
}

/// The profile in a stored ETF2L document: its `player` member when it has
/// one, else the document itself.
pub open spec fn profile_of(v: Json) -> Json {
    match get(v, "player"@) {
        Some(p) => p,
        None => v,
    }
}

/// A string under the profile's `steam` member.
pub open spec fn steam_text(p: Json, key: Seq<char>) -> Option<Seq<char>> {
    match get(p, "steam"@) {
        Some(s) => str_of(get(s, key)),
        None => None,
    }
}

/// The owner's name and picture link from one stored ETF2L document:
/// `None` when its profile's `steam.id64` is not the owner's. The name is
/// the profile's `name`, the picture its `steam.avatar`, dropped unless it
/// is an `https` link.
pub open spec fn owner_profile_spec(v: Json, me64: Seq<char>) -> Option<(Option<Seq<char>>, Option<Seq<char>>)> {
    let p = profile_of(v);
    if steam_text(p, "id64"@) != Some(me64) {
        None
    } else {
        let avatar = match steam_text(p, "avatar"@) {
            Some(a) => if https(a) {
                Some(a)
            } else {
                None
            },
            None => None,
        };
        Some((str_of(get(p, "name"@)), avatar))
    }
}

/// The owner's name and picture link from one stored profile (JSON text):
/// `None` when it is not JSON or not the owner's.
pub open spec fn etf2l_owner_spec(text: Seq<char>, me64: Seq<char>) -> Option<(Option<Seq<char>>, Option<Seq<char>>)> {
    match logs_json(text) {
        None => None,
        Some(v) => owner_profile_spec(v, me64),
    }
}

/// The first of the stored profiles from `k` on that is the owner's.
pub open spec fn owner_from(rows: Seq<Seq<char>>, me64: Seq<char>, k: int) -> Option<(Option<Seq<char>>, Option<Seq<char>>)>
    decreases rows.len() - k,
{
    if k < 0 || k >= rows.len() {
        None
    } else {
        match etf2l_owner_spec(rows[k], me64) {
            Some(found) => Some(found),
            None => owner_from(rows, me64, k + 1),
        }
    }
}

fn text_in(v: Option<&Json>) -> (r: Option<String>)
    ensures
        text_view(r) == str_of(opt_json(v)),
{
    match v {
        Some(Json::Str(s)) => Some(string_of(chars_of(s.as_str()).as_slice())),
        _ => None,
    }
}

fn steam_field(p: &Json, key: &str) -> (r: Option<String>)
    ensures
        text_view(r) == steam_text(*p, key@),
{
    match get_field(p, "steam") {
        Some(st) => text_in(get_field(st, key)),
        None => None,
    }
}

/// The owner's name and picture link from one stored ETF2L document, or
/// `None` when its profile is not the owner's (`me64`, the SteamID64).
pub fn owner_of_profile(v: &Json, me64: &[char]) -> (r: Option<(Option<String>, Option<String>)>)
    ensures
        match owner_profile_spec(*v, me64@) {
            Some((n, a)) => r matches Some((rn, ra)) && text_view(rn) == n && text_view(ra) == a,
            None => r is None,
        },
{
    let p = match get_field(v, "player") {
        Some(x) => x,
        None => v,
    };
    assert(*p == profile_of(*v));
    let id = steam_field(p, "id64");
    let mine = match &id {
        Some(s) => crate::text::same(chars_of(s.as_str()).as_slice(), me64),
        None => false,
    };
    if !mine {
        return None;
    }
    let avatar = match steam_field(p, "avatar") {
        Some(a) => if is_https(&a) {
            Some(a)
        } else {
            None
        },
        None => None,
    };
    Some((text_in(get_field(p, "name")), avatar))
}

/// Name and picture link from the stored ETF2L profiles (JSON texts), from
/// the first that is the owner's.
pub fn from_etf2l(rows: &[String], me: SteamId) -> (r: Option<(Option<String>, Option<String>)>)
    ensures
        match owner_from(rows@.map_values(|s: String| s@), steamid64_text(me@), 0) {
            Some((n, a)) => r matches Some((rn, ra)) && text_view(rn) == n && text_view(ra) == a,
            None => r is None,
        },
{
    let ghost rs = rows@.map_values(|s: String| s@);
    let me64 = me.to_steamid64();
    let mc = chars_of(me64.as_str());
    let mut k: usize = 0;
    while k < rows.len()
        invariant
            k <= rows@.len(),
            rs == rows@.map_values(|s: String| s@),
            mc@ == steamid64_text(me@),
            owner_from(rs, mc@, 0) == owner_from(rs, mc@, k as int),
        decreases rows@.len() - k,
    {
        assert(rs[k as int] == rows@[k as int]@);
        if let Some(v) = read_logs_json(rows[k].as_str()) {
            if let Some(found) = owner_of_profile(&v, mc.as_slice()) {
                return Some(found);
            }
        }
        k += 1;
    }
    None
}

/// Whether the picture must be fetched: the link changed, or none is stored.
pub fn avatar_stale(stored_src: Option<&str>, src: &str, have_avatar: bool) -> (r: bool)
    ensures
        r == (match stored_src {
            Some(s) => s@ != src@,
            None => true,
        } || !have_avatar),
{
    let changed = match stored_src {
        Some(s) => {
            let a = chars_of(s);
            let b = chars_of(src);
            !crate::text::same(a.as_slice(), b.as_slice())
        },
        None => true,
    };
    changed || !have_avatar
}

// ---------------------------------------------------------------------------
// The picture
// ---------------------------------------------------------------------------

pub open spec fn b64_char(v: int) -> char {
    if v < 26 {
        ('A' as int + v) as char
    } else if v < 52 {
        ('a' as int + v - 26) as char
    } else if v < 62 {
        ('0' as int + v - 52) as char
    } else if v == 62 {
        '+'
    } else {
        '/'
    }
}

/// Standard base64 (RFC 4648, with `+`, `/` and `=` padding).
pub open spec fn base64_spec(b: Seq<u8>) -> Seq<char>
    decreases b.len(),
{
    if b.len() == 0 {
        Seq::empty()
    } else if b.len() == 1 {
        let n = b[0] * 65536;
        seq![b64_char(n / 262144), b64_char(n / 4096 % 64), '=', '=']
    } else if b.len() == 2 {
        let n = b[0] * 65536 + b[1] * 256;
        seq![b64_char(n / 262144), b64_char(n / 4096 % 64), b64_char(n / 64 % 64), '=']
    } else {
        let n = b[0] * 65536 + b[1] * 256 + b[2];
        seq![b64_char(n / 262144), b64_char(n / 4096 % 64), b64_char(n / 64 % 64), b64_char(n % 64)]
            + base64_spec(b.skip(3))
    }
}

/// `base64::engine::general_purpose::STANDARD.encode`: the standard
/// alphabet with padding, as RFC 4648 writes it.
#[verifier::external_body]
fn base64_standard(bytes: &[u8]) -> (s: String)
    requires
        bytes@.len() < usize::MAX / 2,
    ensures
        s@ == base64_spec(bytes@),
{
    base64::Engine::encode(&base64::engine::general_purpose::STANDARD, bytes)
}

/// The picture's type, from its first bytes: PNG, GIF, else JPEG.
pub open spec fn mime_spec(b: Seq<u8>) -> Seq<char> {
    if b.len() >= 4 && b[0] == 0x89 && b[1] == 0x50 && b[2] == 0x4e && b[3] == 0x47 {
        "image/png"@
    } else if b.len() >= 4 && b[0] == 0x47 && b[1] == 0x49 && b[2] == 0x46 && b[3] == 0x38 {
        "image/gif"@
    } else {
        "image/jpeg"@
    }
}

/// The picture as a `data:` URL, ready for an `<img>`.
pub fn data_url(bytes: &[u8]) -> (r: String)
    requires
        bytes@.len() < usize::MAX / 2,
    ensures
        r@ == "data:"@ + mime_spec(bytes@) + ";base64,"@ + base64_spec(bytes@),
{
    let mime = if bytes.len() >= 4 && bytes[0] == 0x89 && bytes[1] == 0x50 && bytes[2] == 0x4e
        && bytes[3] == 0x47 {
        "image/png"
    } else if bytes.len() >= 4 && bytes[0] == 0x47 && bytes[1] == 0x49 && bytes[2] == 0x46
        && bytes[3] == 0x38 {
        "image/gif"
    } else {
        "image/jpeg"
    };
    let mut out: Vec<char> = Vec::new();
    push_str(&mut out, "data:");
    push_str(&mut out, mime);
    push_str(&mut out, ";base64,");
    let enc = base64_standard(bytes);
    push_str(&mut out, enc.as_str());
    string_of(out.as_slice())
}

} // verus!
