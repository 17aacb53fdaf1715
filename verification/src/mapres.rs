//! Which map every round was played on, including rounds inside logs that
//! were combined from several maps under a made-up name.
//!
//! Each round takes the first source that answers:
//!
//! 1. `log`: the log names one real map, so every round is on it.
//! 2. `meta`: the raw log's own `meta_data (map ...)` line before the round.
//! 3. `part`: a part the log was combined from has a round starting at the
//!    same second.
//! 4. `window`: the round falls in exactly one part's upload window on the
//!    real clock.
//! 5. `geometry`: the round's kill positions scored against every map's
//!    outline. The scoring is floating point and is done by the caller, who
//!    hands in each round's answer; the candidates it scores among come from
//!    [`candidates`].
//!
//! Last, `neighbour` smoothing: maps come in unbroken blocks, so a round the
//! geometry was unsure of, between two rounds of one other map, takes theirs.
use crate::maps::{map_base_chars, map_base_spec};
use crate::text::{
    alnum, chars_of, digit, find, find_at, lemma_find_from_bounds, lower_s, lowered, same,
    slice_of, starts_with, string_of, trim, trim_end_char, trim_end_digits, trimmed,
};
use vstd::prelude::*;

verus! {

/// Where the rounds' maps come from, most reliable first.
#[derive(Debug, Clone, Copy, PartialEq, Eq, Structural, Hash)]
pub enum Source {
    Log,
    Meta,
    Part,
    Window,
    Geometry,
    Neighbour,
}

pub open spec fn source_text(s: Source) -> Seq<char> {
    match s {
        Source::Log => "log"@,
        Source::Meta => "meta"@,
        Source::Part => "part"@,
        Source::Window => "window"@,
        Source::Geometry => "geometry"@,
        Source::Neighbour => "neighbour"@,
    }
}

impl Source {
    pub fn as_str(self) -> (r: &'static str)
        ensures
            r@ == source_text(self),
    {
        match self {
            Source::Log => "log",
            Source::Meta => "meta",
            Source::Part => "part",
            Source::Geometry => "geometry",
            Source::Window => "window",
            Source::Neighbour => "neighbour",
        }
    }
}

// ---------------------------------------------------------------------------
// Map names
// ---------------------------------------------------------------------------

pub open spec fn is_lower(c: char) -> bool {
    'a' <= c && c <= 'z'
}

pub open spec fn map_char(c: char) -> bool {
    is_lower(c) || ('0' <= c && c <= '9') || c == '_'
}

/// A real map name, as the server writes it: a game-mode prefix of two to
/// six lowercase letters, an underscore, then a name, all of it lowercase
/// letters, digits and underscores (case and surrounding space aside).
pub open spec fn is_map_name_spec(s: Seq<char>) -> bool {
    let t = lower_s(trim(s));
    match find(t, seq!['_']) {
        None => false,
        Some(k) => {
            &&& 2 <= k <= 6
            &&& forall|i: int| 0 <= i < k ==> is_lower(#[trigger] t[i])
            &&& k + 1 < t.len()
            &&& forall|i: int| 0 <= i < t.len() ==> map_char(#[trigger] t[i])
        },
    }
}

pub fn is_map_name_chars(s: &[char]) -> (b: bool)
    ensures
        b == is_map_name_spec(s@),
{
    let tr = trimmed(s);
    let t = lowered(tr.as_slice());
    let u: [char; 1] = ['_'];
    assert(u@ =~= seq!['_']);
    let k = match find_at(t.as_slice(), u.as_slice(), 0) {
        None => return false,
        Some(k) => k,
    };
    proof {
        lemma_find_from_bounds(t@, seq!['_'], 0);
    }
    if k < 2 || k > 6 {
        return false;
    }
    let mut i: usize = 0;
    while i < k
        invariant
            i <= k <= t@.len(),
            2 <= k <= 6,
            t@ == lower_s(trim(s@)),
            find(t@, seq!['_']) == Some(k as int),
            forall|j: int| 0 <= j < i ==> is_lower(#[trigger] t@[j]),
        decreases k - i,
    {
        if !('a' <= t[i] && t[i] <= 'z') {
            assert(!is_lower(t@[i as int]));
            return false;
        }
        i += 1;
    }
    if k + 1 >= t.len() {
        return false;
    }
    let mut i: usize = 0;
    while i < t.len()
        invariant
            i <= t@.len(),
            2 <= k <= 6,
            k + 1 < t@.len(),
            t@ == lower_s(trim(s@)),
            find(t@, seq!['_']) == Some(k as int),
            forall|j: int| 0 <= j < k ==> is_lower(#[trigger] t@[j]),
            forall|j: int| 0 <= j < i ==> map_char(#[trigger] t@[j]),
        decreases t@.len() - i,
    {
        let c = t[i];
        if !(('a' <= c && c <= 'z') || digit(c) || c == '_') {
            assert(!map_char(t@[i as int]));
            return false;
        }
        i += 1;
    }
    true
}

/// A real map name, as the server writes it: `pl_upward_f12`,
/// `tow_tetsudo_b10a`. Anything with spaces, dashes or slashes, or no
/// prefix, is a name someone typed.
pub fn is_map_name(s: &str) -> (b: bool)
    ensures
        b == is_map_name_spec(s@),
{
    let cs = chars_of(s);
    is_map_name_chars(cs.as_slice())
}

// ---------------------------------------------------------------------------
// Names in free text
// ---------------------------------------------------------------------------

/// The first character at or after `from` that is not an ASCII letter or digit.
pub open spec fn first_break(s: Seq<char>, from: int) -> Option<int>
    decreases s.len() - from,
{
    if from < 0 || from >= s.len() {
        None
    } else if !crate::text::is_alnum(s[from]) {
        Some(from)
    } else {
        first_break(s, from + 1)
    }
}

/// A piece of text as a map token: trailing digits, then trailing `x`s,
/// dropped (`vigilx2` is `vigil`).
pub open spec fn token_of(raw: Seq<char>) -> Seq<char> {
    trim_end_char(trim_end_digits(raw), 'x')
}

/// The one known base a token names: the token itself when it is one, else
/// the only base it starts.
pub open spec fn unique_hit(known: Seq<Seq<char>>, token: Seq<char>) -> Option<Seq<char>> {
    if known.contains(token) {
        Some(token)
    } else if exists|b: Seq<char>|
        #![trigger known.contains(b)]
        known.contains(b) && starts_with(b, token) && forall|c: Seq<char>|
            #![trigger known.contains(c)]
            known.contains(c) && starts_with(c, token) ==> c == b {
        Some(
            choose|b: Seq<char>|
                #![trigger known.contains(b)]
                known.contains(b) && starts_with(b, token) && forall|c: Seq<char>|
                    #![trigger known.contains(c)]
                    known.contains(c) && starts_with(c, token) ==> c == b,
        )
    } else {
        None
    }
}

/// Folds one token into the bases found so far.
pub open spec fn take_token(out: Seq<Seq<char>>, known: Seq<Seq<char>>, raw: Seq<char>) -> Seq<
    Seq<char>,
> {
    let token = token_of(raw);
    if token.len() < 3 {
        out
    } else {
        match unique_hit(known, token) {
            Some(b) => if out.contains(b) {
                out
            } else {
                out.push(b)
            },
            None => out,
        }
    }
}

/// The bases named by the pieces of `s` (split at every character that is
/// not an ASCII letter or digit), added to `out` in order, once each.
pub open spec fn bases_in(out: Seq<Seq<char>>, known: Seq<Seq<char>>, s: Seq<char>) -> Seq<
    Seq<char>,
>
    decreases s.len(),
{
    match first_break(s, 0) {
        None => take_token(out, known, s),
        Some(k) => {
            proof {
                lemma_first_break_bounds(s, 0);
            }
            bases_in(take_token(out, known, s.take(k)), known, s.skip(k + 1))
        },
    }
}

pub proof fn lemma_first_break_bounds(s: Seq<char>, from: int)
    ensures
        first_break(s, from) matches Some(k) ==> from <= k < s.len(),
    decreases s.len() - from,
{
    if from >= 0 && from < s.len() && crate::text::is_alnum(s[from]) {
        lemma_first_break_bounds(s, from + 1);
    }
}

pub open spec fn texts(v: Seq<String>) -> Seq<Seq<char>> {
    v.map_values(|s: String| s@)
}

fn token_end(raw: &[char]) -> (hi: usize)
    ensures
        hi <= raw@.len(),
        raw@.take(hi as int) == token_of(raw@),
{
    let mut hi = raw.len();
    assert(raw@.take(hi as int) =~= raw@);
    while hi > 0 && digit(raw[hi - 1])
        invariant
            hi <= raw@.len(),
            trim_end_digits(raw@) == trim_end_digits(raw@.take(hi as int)),
        decreases hi,
    {
        assert(raw@.take(hi as int).drop_last() =~= raw@.take(hi - 1));
        hi -= 1;
    }
    let ghost d = raw@.take(hi as int);
    assert(trim_end_digits(d) == d);
    let top = hi;
    while hi > 0 && raw[hi - 1] == 'x'
        invariant
            hi <= top,
            d == raw@.take(top as int),
            top <= raw@.len(),
            trim_end_char(d, 'x') == trim_end_char(raw@.take(hi as int), 'x'),
        decreases hi,
    {
        assert(raw@.take(hi as int).drop_last() =~= raw@.take(hi - 1));
        hi -= 1;
    }
    hi
}

fn known_hit(known: &[String], token: &[char]) -> (r: Option<usize>)
    ensures
        r matches Some(i) ==> (i < known@.len() && unique_hit(texts(known@), token@) == Some(
            known@[i as int]@,
        )),
        r is None ==> unique_hit(texts(known@), token@) is None,
{
    let ghost ks = texts(known@);
    let mut i: usize = 0;
    while i < known.len()
        invariant
            i <= known@.len(),
            ks == texts(known@),
            forall|j: int| 0 <= j < i ==> known@[j]@ != token@,
        decreases known@.len() - i,
    {
        let k = chars_of(known[i].as_str());
        if same(k.as_slice(), token) {
            assert(ks[i as int] == token@);
            assert(ks.contains(token@));
            return Some(i);
        }
        i += 1;
    }
    assert(!ks.contains(token@)) by {
        if ks.contains(token@) {
            let j = choose|j: int| 0 <= j < ks.len() && ks[j] == token@;
            assert(ks[j] == known@[j]@);
        }
    }
    let mut hit: Option<usize> = None;
    let mut ambiguous = false;
    let mut i: usize = 0;
    while i < known.len()
        invariant
            i <= known@.len(),
            ks == texts(known@),
            !ks.contains(token@),
            hit matches Some(h) ==> h < i && starts_with(known@[h as int]@, token@),
            hit is None ==> forall|j: int| 0 <= j < i ==> !starts_with(#[trigger] known@[j]@, token@),
            !ambiguous ==> (hit matches Some(h) ==> forall|j: int|
                0 <= j < i && starts_with(#[trigger] known@[j]@, token@) ==> known@[j]@
                    == known@[h as int]@),
            ambiguous ==> exists|a: int, b: int|
                0 <= a < known@.len() && 0 <= b < known@.len() && starts_with(#[trigger] known@[a]@, token@)
                    && starts_with(#[trigger] known@[b]@, token@) && known@[a]@ != known@[b]@,
            ambiguous ==> hit is Some,
        decreases known@.len() - i,
    {
        let k = chars_of(known[i].as_str());
        let pre = crate::text::has_prefix(k.as_slice(), token);
        if pre {
            match hit {
                None => {
                    hit = Some(i);
                },
                Some(h) => {
                    let kh = chars_of(known[h].as_str());
                    if !same(kh.as_slice(), k.as_slice()) {
                        ambiguous = true;
                    }
                },
            }
        }
        i += 1;
    }
    if ambiguous {
        proof {
            let (a, b) = choose|a: int, b: int|
                0 <= a < known@.len() && 0 <= b < known@.len() && starts_with(#[trigger] known@[a]@, token@)
                    && starts_with(#[trigger] known@[b]@, token@) && known@[a]@ != known@[b]@;
            assert(ks[a] == known@[a]@ && ks[b] == known@[b]@);
            assert(ks.contains(known@[a]@) && ks.contains(known@[b]@));
        }
        return None;
    }
    match hit {
        None => {
            assert forall|b: Seq<char>| ks.contains(b) implies !starts_with(b, token@) by {
                let j = choose|j: int| 0 <= j < ks.len() && ks[j] == b;
                assert(ks[j] == known@[j]@);
            }
            None
        },
        Some(h) => {
            let ghost w = known@[h as int]@;
            assert(ks[h as int] == w);
            assert(ks.contains(w));
            assert forall|c: Seq<char>| #[trigger] ks.contains(c) && starts_with(c, token@) implies c == w by {
                let j = choose|j: int| 0 <= j < ks.len() && ks[j] == c;
                assert(ks[j] == known@[j]@);
            }
            Some(h)
        },
    }
}

fn has_text(out: &[String], b: &[char]) -> (r: bool)
    ensures
        r == texts(out@).contains(b@),
{
    let mut i: usize = 0;
    while i < out.len()
        invariant
            i <= out@.len(),
            forall|j: int| 0 <= j < i ==> out@[j]@ != b@,
        decreases out@.len() - i,
    {
        let o = chars_of(out[i].as_str());
        if same(o.as_slice(), b) {
            assert(texts(out@)[i as int] == b@);
            return true;
        }
        i += 1;
    }
    assert(!texts(out@).contains(b@)) by {
        if texts(out@).contains(b@) {
            let j = choose|j: int| 0 <= j < texts(out@).len() && texts(out@)[j] == b@;
            assert(texts(out@)[j] == out@[j]@);
        }
    }
    false
}

fn take_token_of(out: &mut Vec<String>, known: &[String], raw: &[char])
    ensures
        texts(final(out)@) == take_token(texts(old(out)@), texts(known@), raw@),
{
    let hi = token_end(raw);
    if hi < 3 {
        return;
    }
    let token = slice_of(raw, 0, hi);
    assert(token@ =~= raw@.take(hi as int));
    match known_hit(known, token.as_slice()) {
        None => {},
        Some(i) => {
            let b = chars_of(known[i].as_str());
            if !has_text(out.as_slice(), b.as_slice()) {
                out.push(known[i].clone());
                assert(texts(out@) =~= texts(old(out)@).push(b@));
            }
        },
    }
}

proof fn lemma_first_break_skip(s: Seq<char>, from: int, j: int)
    requires
        0 <= from <= s.len(),
        0 <= j,
    ensures
        first_break(s.skip(from), j) == match first_break(s, from + j) {
            Some(k) => Some(k - from),
            None => None,
        },
    decreases s.len() - from - j,
{
    if from + j < s.len() {
        assert(s.skip(from)[j] == s[from + j]);
        if crate::text::is_alnum(s[from + j]) {
            lemma_first_break_skip(s, from, j + 1);
        }
    }
}

/// Map bases spelled out in free text: `proot + proplant`, `upw/casc`,
/// `vigilx2`. A token names a map when it is at least three letters and
/// either a known base or the start of exactly one.
pub fn named_bases(text: &str, known: &[String]) -> (r: Vec<String>)
    ensures
        texts(r@) == bases_in(Seq::empty(), texts(known@), lower_s(text@)),
{
    let cs = chars_of(text);
    let low = lowered(cs.as_slice());
    let l = low.as_slice();
    let mut out: Vec<String> = Vec::new();
    let mut pos: usize = 0;
    assert(l@.skip(0) =~= l@);
    assert(texts(out@) =~= Seq::<Seq<char>>::empty());
    loop
        invariant
            pos <= l@.len(),
            l@ == lower_s(text@),
            bases_in(texts(out@), texts(known@), l@.skip(pos as int)) == bases_in(
                Seq::empty(),
                texts(known@),
                lower_s(text@),
            ),
        decreases l@.len() - pos,
    {
        let ghost rest = l@.skip(pos as int);
        let mut k = pos;
        while k < l.len() && alnum(l[k])
            invariant
                pos <= k <= l@.len(),
                first_break(l@, pos as int) == first_break(l@, k as int),
            decreases l@.len() - k,
        {
            k += 1;
        }
        proof {
            lemma_first_break_skip(l@, pos as int, 0);
            lemma_first_break_bounds(l@, pos as int);
        }
        let piece = slice_of(l, pos, k);
        if k == l.len() {
            assert(first_break(rest, 0) is None);
            assert(piece@ =~= rest);
            take_token_of(&mut out, known, piece.as_slice());
            return out;
        }
        assert(first_break(rest, 0) == Some(k - pos));
        assert(piece@ =~= rest.take(k - pos));
        take_token_of(&mut out, known, piece.as_slice());
        assert(rest.skip(k - pos + 1) =~= l@.skip(k + 1));
        pos = k + 1;
    }
}

// ---------------------------------------------------------------------------
// Rounds, parts and logs
// ---------------------------------------------------------------------------

/// One round, in logs.tf's round-time frame.
#[derive(Debug, Clone)]
pub struct RoundIn {
    pub round_num: i64,
    pub start: i64,
    pub length: i64,
    /// Kill positions (both players) inside the round.
    pub points: Vec<(i32, i32)>,
}

/// A part the log was combined from.
#[derive(Debug, Clone)]
pub struct PartIn {
    pub map: String,
    /// Its rounds' start times, when its logs.tf JSON is stored.
    pub round_starts: Vec<i64>,
    /// Upload time and length on the real clock, from trends.tf.
    pub uploaded: Option<i64>,
    pub duration: Option<i64>,
}

pub struct PartV {
    pub map: Seq<char>,
    pub round_starts: Seq<i64>,
    pub uploaded: Option<i64>,
    pub duration: Option<i64>,
}

impl View for PartIn {
    type V = PartV;

    open spec fn view(&self) -> PartV {
        PartV {
            map: self.map@,
            round_starts: self.round_starts@,
            uploaded: self.uploaded,
            duration: self.duration,
        }
    }
}

#[derive(Debug, Clone, Default)]
pub struct LogIn {
    /// logs.tf's map field: a real map, free text, or nothing.
    pub map_field: Option<String>,
    pub title: Option<String>,
    pub rounds: Vec<RoundIn>,
    pub parts: Vec<PartIn>,
    /// `(time in logs.tf's frame, map)` from the raw log's map lines.
    pub meta_maps: Vec<(i64, String)>,
    /// ETF2L's maps for an official, in order.
    pub etf2l_maps: Vec<String>,
    /// Shift from logs.tf's frame to real time (the log clock).
    pub clock_offset: Option<i64>,
}

pub open spec fn opt_text(o: Option<String>) -> Option<Seq<char>> {
    match o {
        Some(s) => Some(s@),
        None => None,
    }
}

pub struct LogV {
    pub map_field: Option<Seq<char>>,
    pub title: Option<Seq<char>>,
    /// Each round's number and start.
    pub rounds: Seq<(i64, i64)>,
    pub parts: Seq<PartV>,
    pub meta_maps: Seq<(i64, Seq<char>)>,
    pub etf2l_maps: Seq<Seq<char>>,
    pub clock_offset: Option<i64>,
}

impl View for LogIn {
    type V = LogV;

    open spec fn view(&self) -> LogV {
        LogV {
            map_field: opt_text(self.map_field),
            title: opt_text(self.title),
            rounds: self.rounds@.map_values(|r: RoundIn| (r.round_num, r.start)),
            parts: self.parts@.map_values(|p: PartIn| p@),
            meta_maps: self.meta_maps@.map_values(|m: (i64, String)| (m.0, m.1@)),
            etf2l_maps: texts(self.etf2l_maps@),
            clock_offset: self.clock_offset,
        }
    }
}

#[derive(Debug, Clone, PartialEq)]
pub struct RoundOut {
    pub round_num: i64,
    pub map: Option<String>,
    pub source: Option<Source>,
}

pub struct RoundOutV {
    pub round_num: i64,
    pub map: Option<Seq<char>>,
    pub source: Option<Source>,
}

impl View for RoundOut {
    type V = RoundOutV;

    open spec fn view(&self) -> RoundOutV {
        RoundOutV { round_num: self.round_num, map: opt_text(self.map), source: self.source }
    }
}

/// What the map outlines say of one round: the best-fitting base, what the
/// caller names that base as a map (`vigil` -> `pl_vigil_rc10`), and whether
/// the fit is clear of the runner-up.
#[derive(Debug, Clone)]
pub struct GeoAnswer {
    pub base: String,
    pub named: Option<String>,
    pub sure: bool,
}

pub struct GeoV {
    pub base: Seq<char>,
    pub named: Option<Seq<char>>,
    pub sure: bool,
}

impl View for GeoAnswer {
    type V = GeoV;

    open spec fn view(&self) -> GeoV {
        GeoV { base: self.base@, named: opt_text(self.named), sure: self.sure }
    }
}

/// Consecutive rounds on one map: `(map, round numbers)` in play order.
pub open spec fn segments_upto(rs: Seq<RoundOutV>, n: int) -> Seq<(Option<Seq<char>>, Seq<i64>)>
    decreases n,
{
    if n <= 0 {
        Seq::empty()
    } else {
        let prev = segments_upto(rs, n - 1);
        let r = rs[n - 1];
        if prev.len() > 0 && prev.last().0 == r.map {
            prev.update(prev.len() - 1, (r.map, prev.last().1.push(r.round_num)))
        } else {
            prev.push((r.map, seq![r.round_num]))
        }
    }
}

pub open spec fn segments_view(v: Seq<(Option<String>, Vec<i64>)>) -> Seq<(Option<Seq<char>>, Seq<i64>)> {
    v.map_values(|s: (Option<String>, Vec<i64>)| (opt_text(s.0), s.1@))
}

fn same_map(a: &Option<String>, b: &Option<String>) -> (r: bool)
    ensures
        r == (opt_text(*a) == opt_text(*b)),
{
    match (a, b) {
        (Some(x), Some(y)) => {
            let xs = chars_of(x.as_str());
            let ys = chars_of(y.as_str());
            same(xs.as_slice(), ys.as_slice())
        },
        (None, None) => true,
        _ => false,
    }
}

fn copy_map(a: &Option<String>) -> (r: Option<String>)
    ensures
        opt_text(r) == opt_text(*a),
{
    match a {
        Some(x) => Some(x.clone()),
        None => None,
    }
}

/// Consecutive rounds on one map: `(map, round numbers)` in play order. A
/// map played again later is a segment of its own.
pub fn segments(rounds: &[RoundOut]) -> (r: Vec<(Option<String>, Vec<i64>)>)
    ensures
        segments_view(r@) == segments_upto(
            rounds@.map_values(|o: RoundOut| o@),
            rounds@.len() as int,
        ),
{
    let ghost rs = rounds@.map_values(|o: RoundOut| o@);
    let mut out: Vec<(Option<String>, Vec<i64>)> = Vec::new();
    let mut i: usize = 0;
    while i < rounds.len()
        invariant
            i <= rounds@.len(),
            rs == rounds@.map_values(|o: RoundOut| o@),
            segments_view(out@) == segments_upto(rs, i as int),
        decreases rounds@.len() - i,
    {
        let r = &rounds[i];
        assert(rs[i as int] == r@);
        let n = out.len();
        let extend = n > 0 && same_map(&out[n - 1].0, &r.map);
        if extend {
            let ghost before = out@;
            out[n - 1].1.push(r.round_num);
            assert(segments_view(out@) =~= segments_view(before).update(
                n - 1,
                (opt_text(r.map), segments_view(before)[n - 1].1.push(r.round_num)),
            ));
        } else {
            let ghost before = out@;
            let mut v: Vec<i64> = Vec::new();
            v.push(r.round_num);
            out.push((copy_map(&r.map), v));
            assert(segments_view(out@) =~= segments_view(before).push(
                (opt_text(r.map), seq![r.round_num]),
            ));
        }
        i += 1;
    }
    out
}

// ---------------------------------------------------------------------------
// Each round's answer
// ---------------------------------------------------------------------------

/// Among the first `n` map lines, the last of the latest at or before `start`.
pub open spec fn meta_pick(ms: Seq<(i64, Seq<char>)>, start: int, n: int) -> Option<int>
    decreases n,
{
    if n <= 0 {
        None
    } else {
        let prev = meta_pick(ms, start, n - 1);
        let k = n - 1;
        if ms[k].0 <= start && (prev matches Some(p) ==> ms[k].0 >= ms[p].0) {
            Some(k)
        } else {
            prev
        }
    }
}

/// The map of the last map line at or before the round's start, when it is
/// a real map name.
pub open spec fn meta_map_spec(log: LogV, start: int) -> Option<Seq<char>> {
    match meta_pick(log.meta_maps, start, log.meta_maps.len() as int) {
        Some(k) => {
            let m = lower_s(log.meta_maps[k].1);
            if is_map_name_spec(m) {
                Some(m)
            } else {
                None
            }
        },
        None => None,
    }
}

/// The first part from `k` on with a real map name and a round starting at `start`.
pub open spec fn exact_from(parts: Seq<PartV>, start: int, k: int) -> Option<int>
    decreases parts.len() - k,
{
    if k < 0 || k >= parts.len() {
        None
    } else if is_map_name_spec(parts[k].map) && parts[k].round_starts.contains(start as i64) {
        Some(k)
    } else {
        exact_from(parts, start, k + 1)
    }
}

pub open spec fn part_exact_spec(log: LogV, start: int) -> Option<Seq<char>> {
    match exact_from(log.parts, start, 0) {
        Some(k) => Some(lower_s(log.parts[k].map)),
        None => None,
    }
}

/// The part was being played at real time `t`: between its upload, less its
/// length and two minutes, and its upload.
pub open spec fn in_window(p: PartV, t: int) -> bool {
    is_map_name_spec(p.map) && match (p.uploaded, p.duration) {
        (Some(up), Some(d)) => up - d - 120 <= t <= up,
        _ => false,
    }
}

/// The first part from `k` on whose window holds `t`.
pub open spec fn window_from(parts: Seq<PartV>, t: int, k: int) -> Option<int>
    decreases parts.len() - k,
{
    if k < 0 || k >= parts.len() {
        None
    } else if in_window(parts[k], t) {
        Some(k)
    } else {
        window_from(parts, t, k + 1)
    }
}

/// The one map among the parts whose upload window holds the round: none
/// when no window holds it or two maps' windows do.
pub open spec fn part_window_spec(log: LogV, start: int) -> Option<Seq<char>> {
    match log.clock_offset {
        None => None,
        Some(off) => {
            let t = start + off;
            match window_from(log.parts, t, 0) {
                None => None,
                Some(f) => {
                    let m = lower_s(log.parts[f].map);
                    if forall|j: int|
                        0 <= j < log.parts.len() && #[trigger] in_window(log.parts[j], t) ==> lower_s(
                            log.parts[j].map,
                        ) == m {
                        Some(m)
                    } else {
                        None
                    }
                },
            }
        },
    }
}

/// The maps the parts and ETF2L name, in that order.
pub open spec fn named_maps(log: LogV) -> Seq<Seq<char>> {
    log.parts.map_values(|p: PartV| p.map) + log.etf2l_maps
}

/// The first real map name from `k` on whose base is `b`, lowercased.
pub open spec fn full_from(ms: Seq<Seq<char>>, b: Seq<char>, k: int) -> Option<Seq<char>>
    decreases ms.len() - k,
{
    if k < 0 || k >= ms.len() {
        None
    } else if is_map_name_spec(ms[k]) && map_base_spec(ms[k]) == b {
        Some(lower_s(ms[k]))
    } else {
        full_from(ms, b, k + 1)
    }
}

/// A round's map, where it came from, and whether it is sure.
pub type Slot = (RoundOutV, bool);

pub open spec fn slot(log: LogV, geo: Seq<Option<GeoV>>, i: int) -> Slot {
    let (num, start) = log.rounds[i];
    let unanswered = (RoundOutV { round_num: num, map: None, source: None }, false);
    match meta_map_spec(log, start as int) {
        Some(m) => (RoundOutV { round_num: num, map: Some(m), source: Some(Source::Meta) }, true),
        None => match part_exact_spec(log, start as int) {
            Some(m) => (RoundOutV { round_num: num, map: Some(m), source: Some(Source::Part) }, true),
            None => match part_window_spec(log, start as int) {
                Some(m) => (
                    RoundOutV { round_num: num, map: Some(m), source: Some(Source::Window) },
                    true,
                ),
                None => match geo[i] {
                    Some(a) => {
                        let name = match full_from(named_maps(log), a.base, 0) {
                            Some(f) => Some(f),
                            None => a.named,
                        };
                        match name {
                            Some(n) => (
                                RoundOutV {
                                    round_num: num,
                                    map: Some(n),
                                    source: Some(Source::Geometry),
                                },
                                a.sure,
                            ),
                            None => unanswered,
                        }
                    },
                    None => unanswered,
                },
            },
        },
    }
}

// ---------------------------------------------------------------------------
// Order and smoothing
// ---------------------------------------------------------------------------

/// How many of the rounds in `ord` start at or before `s`.
pub open spec fn count_le(ord: Seq<int>, rs: Seq<(i64, i64)>, s: i64) -> nat
    decreases ord.len(),
{
    if ord.len() == 0 {
        0
    } else {
        count_le(ord.drop_last(), rs, s) + if rs[ord.last()].1 <= s {
            1nat
        } else {
            0nat
        }
    }
}

/// The first `n` rounds in order of start, rounds that start together in
/// their given order (a stable insertion sort).
pub open spec fn sorted_order(rs: Seq<(i64, i64)>, n: int) -> Seq<int>
    decreases n,
{
    if n <= 0 {
        Seq::empty()
    } else {
        let ord = sorted_order(rs, n - 1);
        ord.insert(count_le(ord, rs, rs[n - 1].1) as int, n - 1)
    }
}

/// In a list of rounds ordered by start, the ones starting at or before
/// `s` come first.
pub proof fn lemma_count_le_splits(ord: Seq<int>, rs: Seq<(i64, i64)>, s: i64)
    requires
        forall|a: int, b: int| 0 <= a < b < ord.len() ==> rs[ord[a]].1 <= rs[ord[b]].1,
    ensures
        count_le(ord, rs, s) <= ord.len(),
        forall|x: int| 0 <= x < count_le(ord, rs, s) ==> rs[#[trigger] ord[x]].1 <= s,
        forall|x: int| count_le(ord, rs, s) <= x < ord.len() ==> rs[#[trigger] ord[x]].1 > s,
    decreases ord.len(),
{
    if ord.len() > 0 {
        let d = ord.drop_last();
        assert forall|a: int, b: int| 0 <= a < b < d.len() implies rs[d[a]].1 <= rs[d[b]].1 by {
            assert(d[a] == ord[a] && d[b] == ord[b]);
        }
        lemma_count_le_splits(d, rs, s);
        let c = count_le(d, rs, s);
        if rs[ord.last()].1 <= s {
            assert forall|x: int| 0 <= x < ord.len() implies rs[#[trigger] ord[x]].1 <= s by {
                if x < ord.len() - 1 {
                    assert(rs[ord[x]].1 <= rs[ord[ord.len() - 1]].1);
                }
            }
            assert(c == d.len()) by {
                if c < d.len() {
                    assert(rs[d[c as int]].1 > s);
                    assert(rs[ord[c as int]].1 <= rs[ord[ord.len() - 1]].1);
                }
            }
        } else {
            assert forall|x: int| 0 <= x < c implies rs[#[trigger] ord[x]].1 <= s by {
                assert(d[x] == ord[x]);
            }
            assert forall|x: int| c <= x < ord.len() implies rs[#[trigger] ord[x]].1 > s by {
                if x < ord.len() - 1 {
                    assert(d[x] == ord[x]);
                }
            }
        }
    }
}

/// The order of start is an order of the rounds: each once, earliest start
/// first.
pub proof fn lemma_sorted_order(rs: Seq<(i64, i64)>, n: int)
    requires
        0 <= n <= rs.len(),
    ensures
        sorted_order(rs, n).len() == n,
        forall|x: int| 0 <= x < n ==> 0 <= #[trigger] sorted_order(rs, n)[x] < n,
        forall|a: int, b: int|
            0 <= a < b < n ==> rs[sorted_order(rs, n)[a]].1 <= rs[sorted_order(rs, n)[b]].1,
    decreases n,
{
    if n > 0 {
        lemma_sorted_order(rs, n - 1);
        let ord = sorted_order(rs, n - 1);
        let t = rs[n - 1].1;
        lemma_count_le_splits(ord, rs, t);
        let c = count_le(ord, rs, t) as int;
        let o2 = ord.insert(c, n - 1);
        assert(sorted_order(rs, n) == o2);
        assert forall|x: int| 0 <= x < n implies 0 <= #[trigger] o2[x] < n by {
            if x < c {
                assert(o2[x] == ord[x]);
            } else if x > c {
                assert(o2[x] == ord[x - 1]);
            }
        }
        assert forall|a: int, b: int| 0 <= a < b < n implies rs[o2[a]].1 <= rs[o2[b]].1 by {
            if a < c {
                assert(o2[a] == ord[a]);
                assert(rs[ord[a]].1 <= t);
                if b < c {
                    assert(o2[b] == ord[b]);
                } else if b > c {
                    assert(o2[b] == ord[b - 1]);
                    assert(rs[ord[b - 1]].1 > t);
                }
            } else if a == c {
                assert(o2[b] == ord[b - 1]);
                assert(rs[ord[b - 1]].1 > t);
            } else {
                assert(o2[a] == ord[a - 1]);
                assert(o2[b] == ord[b - 1]);
            }
        }
    }
}

/// A round the neighbours may overrule: unanswered, or a geometry answer
/// that is not sure.
pub open spec fn unsure(s: Slot) -> bool {
    s.0.map is None || (s.0.source == Some(Source::Geometry) && !s.1)
}

/// Smoothing at round `i`: an unsure round between two rounds of one map
/// takes that map; at either end, the one neighbour's.
pub open spec fn smooth_at(a: Seq<Slot>, i: int) -> Seq<Slot> {
    if !unsure(a[i]) {
        a
    } else {
        let prev = if i >= 1 {
            a[i - 1].0.map
        } else {
            None
        };
        let next = if i + 1 < a.len() {
            a[i + 1].0.map
        } else {
            None
        };
        let pick = match (prev, next) {
            (Some(x), Some(y)) => if x == y {
                Some(x)
            } else {
                None
            },
            (Some(x), None) => if i + 1 == a.len() {
                Some(x)
            } else {
                None
            },
            (None, Some(y)) => if i == 0 {
                Some(y)
            } else {
                None
            },
            _ => None,
        };
        match pick {
            Some(m) => if a[i].0.map != Some(m) {
                a.update(
                    i,
                    (
                        RoundOutV {
                            round_num: a[i].0.round_num,
                            map: Some(m),
                            source: Some(Source::Neighbour),
                        },
                        a[i].1,
                    ),
                )
            } else {
                a
            },
            None => a,
        }
    }
}

/// Smoothing the first `n` rounds, one after another.
pub open spec fn smooth_upto(a: Seq<Slot>, n: int) -> Seq<Slot>
    decreases n,
{
    if n <= 0 {
        a
    } else {
        smooth_at(smooth_upto(a, n - 1), n - 1)
    }
}

/// Every round's map, in order of start.
pub open spec fn resolve_spec(log: LogV, geo: Seq<Option<GeoV>>) -> Seq<RoundOutV> {
    let ord = sorted_order(log.rounds, log.rounds.len() as int);
    if log.map_field matches Some(m) && is_map_name_spec(m) {
        Seq::new(
            ord.len(),
            |k: int|
                RoundOutV {
                    round_num: log.rounds[ord[k]].0,
                    map: Some(lower_s(trim(log.map_field.unwrap()))),
                    source: Some(Source::Log),
                },
        )
    } else {
        let first = Seq::new(ord.len(), |k: int| slot(log, geo, ord[k]));
        smooth_upto(first, first.len() as int).map_values(|s: Slot| s.0)
    }
}

fn lower_string(s: &String) -> (r: String)
    ensures
        r@ == lower_s(s@),
{
    let cs = chars_of(s.as_str());
    let l = lowered(cs.as_slice());
    string_of(l.as_slice())
}

fn meta_map(log: &LogIn, start: i64) -> (r: Option<String>)
    ensures
        opt_text(r) == meta_map_spec(log@, start as int),
{
    let ghost ms = log@.meta_maps;
    let mut best: Option<usize> = None;
    let mut k: usize = 0;
    while k < log.meta_maps.len()
        invariant
            k <= log.meta_maps@.len(),
            ms == log@.meta_maps,
            best is None <==> meta_pick(ms, start as int, k as int) is None,
            best matches Some(p) ==> (p < k && meta_pick(ms, start as int, k as int) == Some(
                p as int,
            )),
        decreases log.meta_maps@.len() - k,
    {
        let t = log.meta_maps[k].0;
        assert(ms[k as int].0 == t);
        if t <= start {
            let take = match best {
                None => true,
                Some(p) => {
                    assert(ms[p as int].0 == log.meta_maps@[p as int].0);
                    t >= log.meta_maps[p].0
                },
            };
            if take {
                best = Some(k);
            }
        }
        k += 1;
    }
    match best {
        None => None,
        Some(p) => {
            assert(ms[p as int].1 == log.meta_maps@[p as int].1@);
            let m = lower_string(&log.meta_maps[p].1);
            if is_map_name(m.as_str()) {
                Some(m)
            } else {
                None
            }
        },
    }
}

fn holds(v: &[i64], x: i64) -> (b: bool)
    ensures
        b == v@.contains(x),
{
    let mut i: usize = 0;
    while i < v.len()
        invariant
            i <= v@.len(),
            forall|j: int| 0 <= j < i ==> v@[j] != x,
        decreases v@.len() - i,
    {
        if v[i] == x {
            return true;
        }
        i += 1;
    }
    false
}

fn part_exact(log: &LogIn, start: i64) -> (r: Option<String>)
    ensures
        opt_text(r) == part_exact_spec(log@, start as int),
{
    let ghost ps = log@.parts;
    let mut k: usize = 0;
    while k < log.parts.len()
        invariant
            k <= log.parts@.len(),
            ps == log@.parts,
            exact_from(ps, start as int, 0) == exact_from(ps, start as int, k as int),
        decreases log.parts@.len() - k,
    {
        let p = &log.parts[k];
        assert(ps[k as int] == p@);
        if is_map_name(p.map.as_str()) && holds(p.round_starts.as_slice(), start) {
            return Some(lower_string(&p.map));
        }
        k += 1;
    }
    None
}

fn in_window_of(p: &PartIn, t: i128) -> (b: bool)
    ensures
        b == in_window(p@, t as int),
{
    if !is_map_name(p.map.as_str()) {
        return false;
    }
    match (p.uploaded, p.duration) {
        (Some(up), Some(d)) => up as i128 - d as i128 - 120 <= t && t <= up as i128,
        _ => false,
    }
}

fn part_window(log: &LogIn, start: i64) -> (r: Option<String>)
    ensures
        opt_text(r) == part_window_spec(log@, start as int),
{
    let ghost ps = log@.parts;
    let off = match log.clock_offset {
        None => return None,
        Some(o) => o,
    };
    let t: i128 = start as i128 + off as i128;
    let mut found: Option<usize> = None;
    let mut k: usize = 0;
    while k < log.parts.len()
        invariant
            k <= log.parts@.len(),
            ps == log@.parts,
            log@.clock_offset == Some(off),
            t == start + off,
            found is None ==> window_from(ps, t as int, 0) == window_from(ps, t as int, k as int),
            found is None ==> forall|j: int| 0 <= j < k ==> !#[trigger] in_window(ps[j], t as int),
            found matches Some(f) ==> (f < k && window_from(ps, t as int, 0) == Some(f as int)
                && forall|j: int|
                0 <= j < k && #[trigger] in_window(ps[j], t as int) ==> lower_s(ps[j].map) == lower_s(
                    ps[f as int].map,
                )),
        decreases log.parts@.len() - k,
    {
        let p = &log.parts[k];
        assert(ps[k as int] == p@);
        assert(ps[k as int].uploaded == p.uploaded && ps[k as int].duration == p.duration);
        if in_window_of(p, t) {
            match found {
                None => {
                    found = Some(k);
                },
                Some(f) => {
                    assert(ps[f as int] == log.parts@[f as int]@);
                    let a = chars_of(log.parts[f].map.as_str());
                    let b = chars_of(p.map.as_str());
                    let la = lowered(a.as_slice());
                    let lb = lowered(b.as_slice());
                    assert(la@ == lower_s(ps[f as int].map));
                    assert(lb@ == lower_s(ps[k as int].map));
                    if !same(la.as_slice(), lb.as_slice()) {
                        assert(in_window(ps[k as int], t as int));
                        assert(!(forall|j: int|
                            0 <= j < ps.len() && #[trigger] in_window(ps[j], t as int) ==> lower_s(
                                ps[j].map,
                            ) == lower_s(ps[f as int].map)));
                        return None;
                    }
                },
            }
        }
        k += 1;
    }
    match found {
        None => None,
        Some(f) => {
            assert(ps[f as int] == log.parts@[f as int]@);
            let m = lower_string(&log.parts[f].map);
            Some(m)
        },
    }
}

/// The first real map name the parts or ETF2L give whose base is `b`.
fn full_of(log: &LogIn, b: &[char]) -> (r: Option<String>)
    ensures
        opt_text(r) == full_from(named_maps(log@), b@, 0),
{
    let ghost ms = named_maps(log@);
    let np = log.parts.len();
    let mut k: usize = 0;
    while k < np
        invariant
            k <= np == log.parts@.len(),
            ms == named_maps(log@),
            full_from(ms, b@, 0) == full_from(ms, b@, k as int),
        decreases np - k,
    {
        let m = &log.parts[k].map;
        assert(ms[k as int] == m@);
        let cs = chars_of(m.as_str());
        if is_map_name(m.as_str()) {
            let base = map_base_chars(cs.as_slice());
            if same(base.as_slice(), b) {
                return Some(lower_string(m));
            }
        }
        k += 1;
    }
    let mut j: usize = 0;
    while j < log.etf2l_maps.len()
        invariant
            j <= log.etf2l_maps@.len(),
            np == log.parts@.len(),
            ms == named_maps(log@),
            full_from(ms, b@, 0) == full_from(ms, b@, np + j),
        decreases log.etf2l_maps@.len() - j,
    {
        let m = &log.etf2l_maps[j];
        assert(ms[np + j] == m@);
        let cs = chars_of(m.as_str());
        if is_map_name(m.as_str()) {
            let base = map_base_chars(cs.as_slice());
            if same(base.as_slice(), b) {
                return Some(lower_string(m));
            }
        }
        j += 1;
    }
    None
}

fn slot_of(log: &LogIn, geo: &[Option<GeoAnswer>], i: usize) -> (r: (RoundOut, bool))
    requires
        i < log.rounds@.len(),
        geo@.len() == log.rounds@.len(),
    ensures
        (r.0@, r.1) == slot(log@, geo@.map_values(|a: Option<GeoAnswer>| geo_view(a)), i as int),
{
    let ghost gs = geo@.map_values(|a: Option<GeoAnswer>| geo_view(a));
    let num = log.rounds[i].round_num;
    let start = log.rounds[i].start;
    assert(log@.rounds[i as int] == (num, start));
    if let Some(m) = meta_map(log, start) {
        return (RoundOut { round_num: num, map: Some(m), source: Some(Source::Meta) }, true);
    }
    if let Some(m) = part_exact(log, start) {
        return (RoundOut { round_num: num, map: Some(m), source: Some(Source::Part) }, true);
    }
    if let Some(m) = part_window(log, start) {
        return (RoundOut { round_num: num, map: Some(m), source: Some(Source::Window) }, true);
    }
    assert(gs[i as int] == geo_view(geo@[i as int]));
    match &geo[i] {
        Some(a) => {
            let bc = chars_of(a.base.as_str());
            let name = match full_of(log, bc.as_slice()) {
                Some(f) => Some(f),
                None => copy_map(&a.named),
            };
            match name {
                Some(n) => (
                    RoundOut { round_num: num, map: Some(n), source: Some(Source::Geometry) },
                    a.sure,
                ),
                None => (RoundOut { round_num: num, map: None, source: None }, false),
            }
        },
        None => (RoundOut { round_num: num, map: None, source: None }, false),
    }
}

pub open spec fn geo_view(a: Option<GeoAnswer>) -> Option<GeoV> {
    match a {
        Some(g) => Some(g@),
        None => None,
    }
}

pub open spec fn ord_view(v: Seq<usize>) -> Seq<int> {
    v.map_values(|x: usize| x as int)
}

pub open spec fn slots_view(v: Seq<(RoundOut, bool)>) -> Seq<Slot> {
    v.map_values(|s: (RoundOut, bool)| (s.0@, s.1))
}

/// The rounds in order of start, equal starts in their given order.
/// The positions of `rs` in order of start (`.1`), rounds that start
/// together in their given order.
pub fn order_by_start(rs: &[(i64, i64)]) -> (ord: Vec<usize>)
    ensures
        ord_view(ord@) == sorted_order(rs@, rs@.len() as int),
        ord@.len() == rs@.len(),
        forall|k: int| 0 <= k < ord@.len() ==> #[trigger] ord@[k] < rs@.len(),
{
    let mut ord: Vec<usize> = Vec::new();
    let mut i: usize = 0;
    while i < rs.len()
        invariant
            i <= rs@.len(),
            ord_view(ord@) == sorted_order(rs@, i as int),
            ord@.len() == i,
            forall|k: int| 0 <= k < ord@.len() ==> #[trigger] ord@[k] < i,
        decreases rs@.len() - i,
    {
        let s = rs[i].1;
        let mut k: usize = 0;
        let mut n: usize = 0;
        while n < ord.len()
            invariant
                n <= ord@.len() == i,
                k <= n,
                i < rs@.len(),
                s == rs@[i as int].1,
                forall|q: int| 0 <= q < ord@.len() ==> #[trigger] ord@[q] < i,
                k == count_le(ord_view(ord@).take(n as int), rs@, s),
            decreases ord@.len() - n,
        {
            assert(ord_view(ord@).take(n + 1).drop_last() =~= ord_view(ord@).take(n as int));
            let j = ord[n];
            if rs[j].1 <= s {
                k += 1;
            }
            n += 1;
        }
        assert(ord_view(ord@).take(ord@.len() as int) =~= ord_view(ord@));
        let ghost before = ord@;
        ord.insert(k, i);
        assert(ord_view(ord@) =~= ord_view(before).insert(k as int, i as int));
        i += 1;
        assert forall|q: int| 0 <= q < ord@.len() implies #[trigger] ord@[q] < i by {
            if q < k {
                assert(ord@[q] == before[q]);
            } else if q > k {
                assert(ord@[q] == before[q - 1]);
            }
        }
    }
    ord
}

fn order_of(rounds: &[RoundIn]) -> (ord: Vec<usize>)
    ensures
        ord_view(ord@) == sorted_order(
            rounds@.map_values(|r: RoundIn| (r.round_num, r.start)),
            rounds@.len() as int,
        ),
        ord@.len() == rounds@.len(),
        forall|k: int| 0 <= k < ord@.len() ==> #[trigger] ord@[k] < rounds@.len(),
{
    let ghost rs = rounds@.map_values(|r: RoundIn| (r.round_num, r.start));
    let mut pairs: Vec<(i64, i64)> = Vec::new();
    let mut i: usize = 0;
    while i < rounds.len()
        invariant
            i <= rounds@.len(),
            rs == rounds@.map_values(|r: RoundIn| (r.round_num, r.start)),
            pairs@ == rs.take(i as int),
        decreases rounds@.len() - i,
    {
        pairs.push((rounds[i].round_num, rounds[i].start));
        assert(rs.take(i + 1) =~= rs.take(i as int).push(rs[i as int]));
        i += 1;
    }
    assert(rs.take(rounds@.len() as int) =~= rs);
    order_by_start(pairs.as_slice())
}

/// Smooths the rounds in order, each seeing its earlier neighbour as smoothed.
fn smooth(out: &mut Vec<(RoundOut, bool)>)
    ensures
        slots_view(final(out)@) == smooth_upto(slots_view(old(out)@), old(out)@.len() as int),
{
    let ghost start = slots_view(out@);
    let n = out.len();
    let mut i: usize = 0;
    while i < n
        invariant
            i <= n == out@.len(),
            start.len() == n,
            slots_view(out@) == smooth_upto(start, i as int),
        decreases n - i,
    {
        let ghost a = slots_view(out@);
        assert(a[i as int] == (out@[i as int].0@, out@[i as int].1));
        let cur_none = out[i].0.map.is_none();
        let unsure_here = cur_none || (out[i].0.source == Some(Source::Geometry) && !out[i].1);
        if unsure_here {
            let prev = if i >= 1 {
                assert(a[i - 1] == (out@[i - 1].0@, out@[i - 1].1));
                copy_map(&out[i - 1].0.map)
            } else {
                None
            };
            let next = if i + 1 < n {
                assert(a[i + 1] == (out@[i + 1].0@, out@[i + 1].1));
                copy_map(&out[i + 1].0.map)
            } else {
                None
            };
            let pick: Option<String> = match (prev, next) {
                (Some(x), Some(y)) => {
                    let xs = chars_of(x.as_str());
                    let ys = chars_of(y.as_str());
                    if same(xs.as_slice(), ys.as_slice()) {
                        Some(x)
                    } else {
                        None
                    }
                },
                (Some(x), None) => if i + 1 == n {
                    Some(x)
                } else {
                    None
                },
                (None, Some(y)) => if i == 0 {
                    Some(y)
                } else {
                    None
                },
                _ => None,
            };
            if let Some(m) = pick {
                let m2 = m.clone();
                let differs = !same_map(&out[i].0.map, &Some(m2));
                if differs {
                    let num = out[i].0.round_num;
                    out[i].0 = RoundOut { round_num: num, map: Some(m), source: Some(Source::Neighbour) };
                    assert(slots_view(out@) =~= smooth_at(a, i as int));
                }
            }
        }
        i += 1;
    }
}

/// Every round's map, in order of start. A log that names one real map has
/// every round on it; otherwise each round takes the first source that
/// answers (map line, part, part window, then `geo`, which holds the map
/// outlines' answer for each of the log's rounds), and unsure rounds are
/// smoothed from their neighbours.
pub fn resolve(log: &LogIn, geo: &[Option<GeoAnswer>]) -> (r: Vec<RoundOut>)
    requires
        geo@.len() == log.rounds@.len(),
    ensures
        r@.map_values(|o: RoundOut| o@) == resolve_spec(
            log@,
            geo@.map_values(|a: Option<GeoAnswer>| geo_view(a)),
        ),
{
    let ghost gs = geo@.map_values(|a: Option<GeoAnswer>| geo_view(a));
    let ord = order_of(log.rounds.as_slice());
    let ghost ov = ord_view(ord@);
    let n = ord.len();
    let fixed = match &log.map_field {
        Some(m) => if is_map_name(m.as_str()) {
            let cs = chars_of(m.as_str());
            let t = trimmed(cs.as_slice());
            let l = lowered(t.as_slice());
            Some(string_of(l.as_slice()))
        } else {
            None
        },
        None => None,
    };
    if let Some(m) = fixed {
        let mut out: Vec<RoundOut> = Vec::new();
        let mut k: usize = 0;
        while k < n
            invariant
                k <= n == ord@.len(),
                ov == ord_view(ord@),
                forall|q: int| 0 <= q < ord@.len() ==> #[trigger] ord@[q] < log.rounds@.len(),
                log@.map_field matches Some(f) && m@ == lower_s(trim(f)),
                out@.len() == k,
                forall|q: int|
                    0 <= q < k ==> #[trigger] out@[q]@ == (RoundOutV {
                        round_num: log@.rounds[ov[q]].0,
                        map: Some(lower_s(trim(log@.map_field.unwrap()))),
                        source: Some(Source::Log),
                    }),
            decreases n - k,
        {
            let j = ord[k];
            assert(log@.rounds[j as int].0 == log.rounds@[j as int].round_num);
            out.push(RoundOut { round_num: log.rounds[j].round_num, map: Some(m.clone()), source: Some(Source::Log) });
            k += 1;
        }
        assert(out@.map_values(|o: RoundOut| o@) =~= resolve_spec(log@, gs));
        return out;
    }
    let mut slots: Vec<(RoundOut, bool)> = Vec::new();
    let mut k: usize = 0;
    while k < n
        invariant
            k <= n == ord@.len(),
            ov == ord_view(ord@),
            gs == geo@.map_values(|a: Option<GeoAnswer>| geo_view(a)),
            geo@.len() == log.rounds@.len(),
            forall|q: int| 0 <= q < ord@.len() ==> #[trigger] ord@[q] < log.rounds@.len(),
            slots@.len() == k,
            forall|q: int| 0 <= q < k ==> #[trigger] slots_view(slots@)[q] == slot(log@, gs, ov[q]),
        decreases n - k,
    {
        let s = slot_of(log, geo, ord[k]);
        let ghost before = slots@;
        let ghost sv = (s.0@, s.1);
        slots.push(s);
        assert(slots_view(slots@) =~= slots_view(before).push(sv));
        k += 1;
    }
    let ghost first = slots_view(slots@);
    assert(first =~= Seq::new(ov.len(), |q: int| slot(log@, gs, ov[q])));
    smooth(&mut slots);
    let mut out: Vec<RoundOut> = Vec::new();
    let mut k: usize = 0;
    let ghost done = slots_view(slots@);
    while k < slots.len()
        invariant
            k <= slots@.len(),
            done == slots_view(slots@),
            out@.len() == k,
            forall|q: int| 0 <= q < k ==> #[trigger] out@[q]@ == done[q].0,
        decreases slots@.len() - k,
    {
        let o = &slots[k].0;
        out.push(RoundOut { round_num: o.round_num, map: copy_map(&o.map), source: o.source });
        k += 1;
    }
    assert(out@.map_values(|o: RoundOut| o@) =~= done.map_values(|s: Slot| s.0));
    out
}

/// The bases of the real map names among `ms`, in order.
pub open spec fn map_bases(ms: Seq<Seq<char>>) -> Seq<Seq<char>>
    decreases ms.len(),
{
    if ms.len() == 0 {
        Seq::empty()
    } else {
        let prev = map_bases(ms.drop_last());
        if is_map_name_spec(ms.last()) {
            prev.push(map_base_spec(ms.last()))
        } else {
            prev
        }
    }
}

pub open spec fn text_bases(t: Option<Seq<char>>, known: Seq<Seq<char>>) -> Seq<Seq<char>> {
    match t {
        Some(t) => bases_in(Seq::empty(), known, lower_s(t)),
        None => Seq::empty(),
    }
}

/// The maps the geometry may choose among: those the parts and ETF2L name,
/// then those spelled out in the log's map field and title.
pub open spec fn candidates_spec(log: LogV, known: Seq<Seq<char>>) -> Seq<Seq<char>> {
    map_bases(named_maps(log)) + text_bases(log.map_field, known) + text_bases(log.title, known)
}

/// The bases the map outlines should choose among for this log's rounds
/// (each once or more; read as a set). `known` are the bases with outlines.
pub fn candidates(log: &LogIn, known: &[String]) -> (r: Vec<String>)
    ensures
        texts(r@) == candidates_spec(log@, texts(known@)),
{
    let ghost ms = named_maps(log@);
    let mut out: Vec<String> = Vec::new();
    let np = log.parts.len();
    let ne = log.etf2l_maps.len();
    let mut k: usize = 0;
    while k < np
        invariant
            k <= np == log.parts@.len(),
            ne == log.etf2l_maps@.len(),
            ms == named_maps(log@),
            ms.len() == np + ne,
            texts(out@) == map_bases(ms.take(k as int)),
        decreases np - k,
    {
        let m = &log.parts[k].map;
        assert(ms[k as int] == m@);
        assert(ms.take(k + 1).drop_last() =~= ms.take(k as int));
        if is_map_name(m.as_str()) {
            let cs = chars_of(m.as_str());
            let b = map_base_chars(cs.as_slice());
            let ghost before = out@;
            out.push(string_of(b.as_slice()));
            assert(texts(out@) =~= texts(before).push(b@));
        }
        k += 1;
    }
    let mut j: usize = 0;
    while j < ne
        invariant
            j <= ne == log.etf2l_maps@.len(),
            np == log.parts@.len(),
            ms == named_maps(log@),
            ms.len() == np + ne,
            texts(out@) == map_bases(ms.take(np + j)),
        decreases ne - j,
    {
        let m = &log.etf2l_maps[j];
        assert(ms[np + j] == m@);
        assert(ms.take(np + j + 1).drop_last() =~= ms.take(np + j));
        if is_map_name(m.as_str()) {
            let cs = chars_of(m.as_str());
            let b = map_base_chars(cs.as_slice());
            let ghost before = out@;
            out.push(string_of(b.as_slice()));
            assert(texts(out@) =~= texts(before).push(b@));
        }
        j += 1;
    }
    assert(ms.take(ms.len() as int) =~= ms);
    let ghost head = out@;
    assert(texts(head) + texts(Seq::<String>::empty()) =~= texts(head));
    let a = match &log.map_field {
        Some(t) => named_bases(t.as_str(), known),
        None => Vec::new(),
    };
    let b = match &log.title {
        Some(t) => named_bases(t.as_str(), known),
        None => Vec::new(),
    };
    let mut i: usize = 0;
    while i < a.len()
        invariant
            i <= a@.len(),
            texts(out@) == texts(head) + texts(a@).take(i as int),
        decreases a@.len() - i,
    {
        let ghost before = out@;
        let c = a[i].clone();
        assert(c@ == a@[i as int]@);
        out.push(c);
        assert(texts(out@) =~= texts(before).push(a@[i as int]@));
        assert(texts(a@).take(i + 1) =~= texts(a@).take(i as int).push(a@[i as int]@));
        i += 1;
        assert(texts(out@) =~= texts(head) + texts(a@).take(i as int));
    }
    let ghost mid = out@;
    let mut i: usize = 0;
    while i < b.len()
        invariant
            i <= b@.len(),
            texts(out@) == texts(mid) + texts(b@).take(i as int),
        decreases b@.len() - i,
    {
        let ghost before = out@;
        let c = b[i].clone();
        assert(c@ == b@[i as int]@);
        out.push(c);
        assert(texts(out@) =~= texts(before).push(b@[i as int]@));
        assert(texts(b@).take(i + 1) =~= texts(b@).take(i as int).push(b@[i as int]@));
        i += 1;
        assert(texts(out@) =~= texts(mid) + texts(b@).take(i as int));
    }
    assert(texts(a@).take(a@.len() as int) =~= texts(a@));
    assert(texts(b@).take(b@.len() as int) =~= texts(b@));
    assert(texts(a@) == text_bases(log@.map_field, texts(known@)));
    assert(texts(b@) == text_bases(log@.title, texts(known@)));
    assert(texts(out@) =~= candidates_spec(log@, texts(known@)));
    out
}

// ---------------------------------------------------------------------------
// The version of a map played most
// ---------------------------------------------------------------------------

/// A map field that counts towards a base's versions: a real map name of
/// that base.
pub open spec fn of_base(m: Seq<char>, b: Seq<char>) -> bool {
    is_map_name_spec(m) && map_base_spec(m) == b
}

/// The version a map field names: trimmed and lowercased.
pub open spec fn version(m: Seq<char>) -> Seq<char> {
    lower_s(trim(m))
}

/// How many of the first `n` map fields name version `v` of base `b`.
pub open spec fn plays(ms: Seq<Seq<char>>, b: Seq<char>, v: Seq<char>, n: int) -> nat
    decreases n,
{
    if n <= 0 {
        0
    } else {
        plays(ms, b, v, n - 1) + if of_base(ms[n - 1], b) && version(ms[n - 1]) == v {
            1nat
        } else {
            0nat
        }
    }
}

/// Among the first `n` map fields, the first one whose version of `b` is
/// played more than any named before it.
pub open spec fn most_played_upto(ms: Seq<Seq<char>>, b: Seq<char>, n: int) -> Option<int>
    decreases n,
{
    if n <= 0 {
        None
    } else {
        let prev = most_played_upto(ms, b, n - 1);
        let k = n - 1;
        if of_base(ms[k], b) && match prev {
            None => true,
            Some(p) => plays(ms, b, version(ms[k]), ms.len() as int) > plays(
                ms,
                b,
                version(ms[p]),
                ms.len() as int,
            ),
        } {
            Some(k)
        } else {
            prev
        }
    }
}

/// The version of base `b` the map fields name most often (the first of
/// them on a tie), or `None` when none names `b`.
pub open spec fn most_played_spec(ms: Seq<Seq<char>>, b: Seq<char>) -> Option<Seq<char>> {
    match most_played_upto(ms, b, ms.len() as int) {
        Some(k) => Some(version(ms[k])),
        None => None,
    }
}

/// The version chosen is played at least as often as any other version of
/// the base, and only a base no field names has none.
pub proof fn lemma_most_played(ms: Seq<Seq<char>>, b: Seq<char>, n: int)
    requires
        0 <= n <= ms.len(),
    ensures
        most_played_upto(ms, b, n) matches Some(k) ==> 0 <= k < n && of_base(ms[k], b) && forall|j: int|
            0 <= j < n && of_base(ms[j], b) ==> plays(ms, b, version(ms[j]), ms.len() as int) <= plays(
                ms,
                b,
                version(ms[k]),
                ms.len() as int,
            ),
        most_played_upto(ms, b, n) is None ==> forall|j: int| 0 <= j < n ==> !of_base(ms[j], b),
    decreases n,
{
    if n > 0 {
        lemma_most_played(ms, b, n - 1);
    }
}

fn version_of(m: &[char]) -> (r: Vec<char>)
    ensures
        r@ == version(m@),
{
    let t = trimmed(m);
    lowered(t.as_slice())
}

/// The version of map base `b` that the map fields `ms` name most often,
/// trimmed and lowercased (the first of them on a tie); `None` when no
/// real map of that base is among them.
pub fn most_played(ms: &[String], b: &str) -> (r: Option<String>)
    ensures
        opt_text(r) == most_played_spec(texts(ms@), b@),
{
    let ghost tv = texts(ms@);
    let bc = chars_of(b);
    let n = ms.len();
    // Each field's version, and whether it counts.
    let mut vs: Vec<Vec<char>> = Vec::new();
    let mut ok: Vec<bool> = Vec::new();
    let mut i: usize = 0;
    while i < n
        invariant
            n == ms@.len(),
            tv == texts(ms@),
            bc@ == b@,
            i <= n,
            vs@.len() == i,
            ok@.len() == i,
            forall|k: int| 0 <= k < i ==> #[trigger] vs@[k]@ == version(tv[k]),
            forall|k: int| 0 <= k < i ==> #[trigger] ok@[k] == of_base(tv[k], b@),
        decreases n - i,
    {
        let c = chars_of(ms[i].as_str());
        assert(tv[i as int] == ms@[i as int]@);
        let counts = is_map_name_chars(c.as_slice()) && {
            let base = map_base_chars(c.as_slice());
            same(base.as_slice(), bc.as_slice())
        };
        vs.push(version_of(c.as_slice()));
        ok.push(counts);
        i += 1;
    }
    // How often each field's version is played.
    let mut best: Option<usize> = None;
    let mut best_n: usize = 0;
    let mut k: usize = 0;
    while k < n
        invariant
            n == ms@.len(),
            tv == texts(ms@),
            k <= n,
            vs@.len() == n,
            ok@.len() == n,
            forall|q: int| 0 <= q < n ==> #[trigger] vs@[q]@ == version(tv[q]),
            forall|q: int| 0 <= q < n ==> #[trigger] ok@[q] == of_base(tv[q], b@),
            match most_played_upto(tv, b@, k as int) {
                Some(p) => 0 <= p < k && best == Some(p as usize) && best_n == plays(
                    tv,
                    b@,
                    version(tv[p]),
                    n as int,
                ),
                None => best is None,
            },
            best matches Some(p) ==> p < k,
        decreases n - k,
    {
        if ok[k] {
            let mut c: usize = 0;
            let mut q: usize = 0;
            while q < n
                invariant
                    n == ms@.len(),
                    tv == texts(ms@),
                    k < n,
                    q <= n,
                    vs@.len() == n,
                    ok@.len() == n,
                    forall|x: int| 0 <= x < n ==> #[trigger] vs@[x]@ == version(tv[x]),
                    forall|x: int| 0 <= x < n ==> #[trigger] ok@[x] == of_base(tv[x], b@),
                    c == plays(tv, b@, version(tv[k as int]), q as int),
                    c <= q,
                decreases n - q,
            {
                if ok[q] && same(vs[q].as_slice(), vs[k].as_slice()) {
                    c += 1;
                }
                q += 1;
            }
            let better = match best {
                None => true,
                Some(_) => c > best_n,
            };
            if better {
                best = Some(k);
                best_n = c;
            }
        }
        k += 1;
    }
    match best {
        Some(p) => Some(string_of(vs[p].as_slice())),
        None => None,
    }
}

// ---------------------------------------------------------------------------
// Stored segment rows
// ---------------------------------------------------------------------------

/// One map of a match as stored: its rounds and how many each side won.
#[derive(Debug, Clone, PartialEq)]
pub struct SegmentRow {
    pub map: Option<String>,
    pub first_round: i64,
    pub last_round: i64,
    pub rounds: i64,
    pub red_wins: i64,
    pub blue_wins: i64,
}

pub type SegmentRowV = (Option<Seq<char>>, i64, i64, i64, i64, i64);

pub open spec fn row_v(r: SegmentRow) -> SegmentRowV {
    (opt_text(r.map), r.first_round, r.last_round, r.rounds, r.red_wins, r.blue_wins)
}

pub open spec fn winners_view(ws: Seq<(i64, Option<String>)>) -> Seq<(i64, Option<Seq<char>>)> {
    ws.map_values(|w: (i64, Option<String>)| (w.0, opt_text(w.1)))
}

/// The winner recorded for round `n` among the first `m` entries: the
/// last entry for it counts.
pub open spec fn winner_upto(ws: Seq<(i64, Option<Seq<char>>)>, n: i64, m: int) -> Option<Seq<char>>
    decreases m,
{
    if m <= 0 {
        None
    } else if ws[m - 1].0 == n {
        ws[m - 1].1
    } else {
        winner_upto(ws, n, m - 1)
    }
}

/// How many of the first `m` rounds in `nums` `team` won.
pub open spec fn wins_upto(nums: Seq<i64>, ws: Seq<(i64, Option<Seq<char>>)>, team: Seq<char>, m: int) -> nat
    decreases m,
{
    if m <= 0 {
        0
    } else {
        wins_upto(nums, ws, team, m - 1) + if winner_upto(ws, nums[m - 1], ws.len() as int) == Some(
            team,
        ) {
            1nat
        } else {
            0nat
        }
    }
}

pub open spec fn segment_row_spec(seg: (Option<Seq<char>>, Seq<i64>), ws: Seq<(i64, Option<Seq<char>>)>) -> SegmentRowV {
    let nums = seg.1;
    (
        seg.0,
        if nums.len() > 0 {
            nums[0]
        } else {
            0
        },
        if nums.len() > 0 {
            nums.last()
        } else {
            0
        },
        nums.len() as i64,
        wins_upto(nums, ws, "Red"@, nums.len() as int) as i64,
        wins_upto(nums, ws, "Blue"@, nums.len() as int) as i64,
    )
}

fn winner_of(ws: &[(i64, Option<String>)], n: i64) -> (r: Option<Vec<char>>)
    ensures
        match r {
            Some(v) => winner_upto(winners_view(ws@), n, ws@.len() as int) == Some(v@),
            None => winner_upto(winners_view(ws@), n, ws@.len() as int) is None,
        },
{
    let ghost wv = winners_view(ws@);
    let mut m: usize = ws.len();
    while m > 0
        invariant
            m <= ws@.len(),
            wv == winners_view(ws@),
            winner_upto(wv, n, ws@.len() as int) == winner_upto(wv, n, m as int),
        decreases m,
    {
        if ws[m - 1].0 == n {
            return match &ws[m - 1].1 {
                Some(w) => Some(chars_of(w.as_str())),
                None => None,
            };
        }
        m -= 1;
    }
    None
}

fn wins_of(nums: &[i64], ws: &[(i64, Option<String>)], team: &str) -> (c: usize)
    ensures
        c == wins_upto(nums@, winners_view(ws@), team@, nums@.len() as int),
{
    let tc = chars_of(team);
    let mut c: usize = 0;
    let mut i: usize = 0;
    while i < nums.len()
        invariant
            i <= nums@.len(),
            tc@ == team@,
            c == wins_upto(nums@, winners_view(ws@), team@, i as int),
            c <= i,
        decreases nums@.len() - i,
    {
        let hit = match winner_of(ws, nums[i]) {
            Some(w) => same(w.as_slice(), tc.as_slice()),
            None => false,
        };
        if hit {
            c += 1;
        }
        i += 1;
    }
    c
}

/// The stored rows of a log's map segments: each segment's first and last
/// round, how many rounds it has, and how many of them each side won, by
/// the rounds' recorded winners (the last record of a round counts).
pub fn segment_rows(segs: &[(Option<String>, Vec<i64>)], winners: &[(i64, Option<String>)]) -> (r: Vec<SegmentRow>)
    ensures
        r@.len() == segs@.len(),
        forall|k: int|
            0 <= k < segs@.len() ==> row_v(#[trigger] r@[k]) == segment_row_spec(
                segments_view(segs@)[k],
                winners_view(winners@),
            ),
{
    let mut out: Vec<SegmentRow> = Vec::new();
    let mut k: usize = 0;
    while k < segs.len()
        invariant
            k <= segs@.len(),
            out@.len() == k,
            forall|q: int|
                0 <= q < k ==> row_v(#[trigger] out@[q]) == segment_row_spec(
                    segments_view(segs@)[q],
                    winners_view(winners@),
                ),
        decreases segs@.len() - k,
    {
        let (map, nums) = (&segs[k].0, &segs[k].1);
        let n = nums.len();
        let red = wins_of(nums.as_slice(), winners, "Red");
        let blue = wins_of(nums.as_slice(), winners, "Blue");
        let row = SegmentRow {
            map: match map {
                Some(m) => Some(string_of(chars_of(m.as_str()).as_slice())),
                None => None,
            },
            first_round: if n > 0 {
                nums[0]
            } else {
                0
            },
            last_round: if n > 0 {
                nums[n - 1]
            } else {
                0
            },
            rounds: n as i64,
            red_wins: red as i64,
            blue_wins: blue as i64,
        };
        proof {
            reveal_strlit("Red");
            reveal_strlit("Blue");
        }
        assert(row_v(row) == segment_row_spec(segments_view(segs@)[k as int], winners_view(winners@)));
        let ghost before = out@;
        out.push(row);
        assert forall|q: int|
            0 <= q < k + 1 implies row_v(#[trigger] out@[q]) == segment_row_spec(
                segments_view(segs@)[q],
                winners_view(winners@),
            ) by {
            if q < k {
                assert(out@[q] == before[q]);
            }
        }
        k += 1;
    }
    out
}

/// The positions, killer's then victim's, of the first `n` kills
/// (`(time, killer x, killer y, victim x, victim y)`) that fall in the round
/// from `start` to `start + length`, ends included.
pub open spec fn points_upto(ps: Seq<(i64, i32, i32, i32, i32)>, start: int, length: int, n: int) -> Seq<(i32, i32)>
    decreases n,
{
    if n <= 0 {
        Seq::empty()
    } else {
        let prev = points_upto(ps, start, length, n - 1);
        let p = ps[n - 1];
        if start <= p.0 <= start + length {
            prev + seq![(p.1, p.2), (p.3, p.4)]
        } else {
            prev
        }
    }
}

/// A round's kill positions: both players' positions for each kill that
/// falls in the round.
pub fn round_points(points: &[(i64, i32, i32, i32, i32)], start: i64, length: i64) -> (r: Vec<(i32, i32)>)
    ensures
        r@ == points_upto(points@, start as int, length as int, points@.len() as int),
{
    let end: i128 = start as i128 + length as i128;
    let mut out: Vec<(i32, i32)> = Vec::new();
    let mut k: usize = 0;
    while k < points.len()
        invariant
            k <= points@.len(),
            end == start + length,
            out@ == points_upto(points@, start as int, length as int, k as int),
        decreases points@.len() - k,
    {
        let (t, kx, ky, vx, vy) = points[k];
        if start <= t && (t as i128) <= end {
            let ghost before = out@;
            out.push((kx, ky));
            out.push((vx, vy));
            assert(out@ =~= before + seq![(kx, ky), (vx, vy)]);
        }
        k += 1;
    }
    out
}

/// Whether a log's segments name more than one map base.
pub open spec fn multi_map_spec(rows: Seq<SegmentRow>) -> bool {
    exists|i: int, j: int|
        0 <= i < rows.len() && 0 <= j < rows.len() && (#[trigger] rows[i]).map is Some && (
        #[trigger] rows[j]).map is Some && map_base_spec(rows[i].map.unwrap()@) != map_base_spec(
            rows[j].map.unwrap()@,
        )
}

/// Whether a log was played on more than one map, by its segments.
pub fn multi_map(rows: &[SegmentRow]) -> (b: bool)
    ensures
        b == multi_map_spec(rows@),
{
    let mut first: Option<(usize, Vec<char>)> = None;
    let mut k: usize = 0;
    while k < rows.len()
        invariant
            k <= rows@.len(),
            match first {
                Some((f, b0)) => f < k && rows@[f as int].map is Some && b0@ == map_base_spec(
                    rows@[f as int].map.unwrap()@,
                ) && forall|q: int|
                    0 <= q < k && (#[trigger] rows@[q]).map is Some ==> map_base_spec(
                        rows@[q].map.unwrap()@,
                    ) == b0@,
                None => forall|q: int| 0 <= q < k ==> (#[trigger] rows@[q]).map is None,
            },
        decreases rows@.len() - k,
    {
        match &rows[k].map {
            Some(m) => {
                let b = crate::maps::map_base_chars(chars_of(m.as_str()).as_slice());
                match &first {
                    Some((f, b0)) => {
                        if !same(b.as_slice(), b0.as_slice()) {
                            assert(multi_map_spec(rows@)) by {
                                assert((rows@[*f as int]).map is Some && (rows@[k as int]).map is Some);
                            }
                            return true;
                        }
                    },
                    None => {
                        first = Some((k, b));
                    },
                }
            },
            None => {},
        }
        k += 1;
    }
    assert(!multi_map_spec(rows@)) by {
        assert forall|i: int, j: int|
            0 <= i < rows@.len() && 0 <= j < rows@.len() && (#[trigger] rows@[i]).map is Some && (
            #[trigger] rows@[j]).map is Some implies map_base_spec(rows@[i].map.unwrap()@) == map_base_spec(
            rows@[j].map.unwrap()@,
        ) by {}
    }
    false
}

// ---------------------------------------------------------------------------
// Where the answers came from
// ---------------------------------------------------------------------------

/// A round's answer as a category: its source in order of reliability, or
/// `6` when unresolved.
pub open spec fn category(o: Option<Source>) -> int {
    match o {
        Some(Source::Log) => 0,
        Some(Source::Meta) => 1,
        Some(Source::Part) => 2,
        Some(Source::Window) => 3,
        Some(Source::Geometry) => 4,
        Some(Source::Neighbour) => 5,
        None => 6,
    }
}

pub open spec fn category_name(c: int) -> Seq<char> {
    if c == 0 {
        "log"@
    } else if c == 1 {
        "meta"@
    } else if c == 2 {
        "part"@
    } else if c == 3 {
        "window"@
    } else if c == 4 {
        "geometry"@
    } else if c == 5 {
        "neighbour"@
    } else {
        "unresolved"@
    }
}

/// How many of the first `n` rounds fall in category `c`.
pub open spec fn in_category(outs: Seq<Option<Source>>, c: int, n: int) -> nat
    decreases n,
{
    if n <= 0 {
        0
    } else {
        in_category(outs, c, n - 1) + if category(outs[n - 1]) == c {
            1nat
        } else {
            0nat
        }
    }
}

/// The categories before `c` that some round falls in, in reliability
/// order, with their counts.
pub open spec fn present_upto(outs: Seq<Option<Source>>, c: int) -> Seq<(Seq<char>, nat)>
    decreases c,
{
    if c <= 0 {
        Seq::empty()
    } else {
        let n = in_category(outs, c - 1, outs.len() as int);
        if n > 0 {
            present_upto(outs, c - 1).push((category_name(c - 1), n))
        } else {
            present_upto(outs, c - 1)
        }
    }
}

/// The sources of the resolved rounds with their counts, most used first
/// (equal counts in reliability order), `unresolved` among them.
pub open spec fn source_counts_spec(outs: Seq<Option<Source>>) -> Seq<(Seq<char>, nat)> {
    let cs = present_upto(outs, 7);
    let ord = crate::analysis::by_key(cs.map_values(|x: (Seq<char>, nat)| -(x.1 as int)), cs.len() as int);
    Seq::new(ord.len(), |k: int| cs[ord[k]])
}

/// The source counts come most used first.
pub proof fn lemma_most_used_first(outs: Seq<Option<Source>>)
    ensures
        forall|a: int, b: int|
            0 <= a < b < source_counts_spec(outs).len() ==> source_counts_spec(outs)[a].1 >= source_counts_spec(
                outs,
            )[b].1,
{
    let cs = present_upto(outs, 7);
    let keys = cs.map_values(|x: (Seq<char>, nat)| -(x.1 as int));
    crate::analysis::lemma_by_key(keys, cs.len() as int);
    let ord = crate::analysis::by_key(keys, cs.len() as int);
    let sc = source_counts_spec(outs);
    assert forall|a: int, b: int| 0 <= a < b < sc.len() implies sc[a].1 >= sc[b].1 by {
        assert(keys[ord[a]] <= keys[ord[b]]);
        assert(0 <= ord[a] < cs.len() && 0 <= ord[b] < cs.len());
    }
}

fn category_of(o: Option<Source>) -> (c: usize)
    ensures
        c == category(o),
{
    match o {
        Some(Source::Log) => 0,
        Some(Source::Meta) => 1,
        Some(Source::Part) => 2,
        Some(Source::Window) => 3,
        Some(Source::Geometry) => 4,
        Some(Source::Neighbour) => 5,
        None => 6,
    }
}

fn category_text(c: usize) -> (r: String)
    ensures
        r@ == category_name(c as int),
{
    let t = if c == 0 {
        "log"
    } else if c == 1 {
        "meta"
    } else if c == 2 {
        "part"
    } else if c == 3 {
        "window"
    } else if c == 4 {
        "geometry"
    } else if c == 5 {
        "neighbour"
    } else {
        "unresolved"
    };
    string_of(chars_of(t).as_slice())
}

pub open spec fn counts_view(v: Seq<(String, usize)>) -> Seq<(Seq<char>, nat)> {
    v.map_values(|x: (String, usize)| (x.0@, x.1 as nat))
}

/// Where the rounds' maps came from: each source used, with how many
/// rounds it answered, most used first.
pub fn source_counts(sources: &[Option<Source>]) -> (r: Vec<(String, usize)>)
    ensures
        counts_view(r@) == source_counts_spec(sources@),
{
    let ghost os = sources@;
    // The categories used, in reliability order.
    let mut cs: Vec<(String, usize)> = Vec::new();
    let mut c: usize = 0;
    while c < 7
        invariant
            c <= 7,
            os == sources@,
            counts_view(cs@) == present_upto(os, c as int),
            cs@.len() <= c,
            forall|q: int| 0 <= q < cs@.len() ==> (#[trigger] cs@[q]).1 <= sources@.len(),
        decreases 7 - c,
    {
        let mut n: usize = 0;
        let mut i: usize = 0;
        while i < sources.len()
            invariant
                i <= sources@.len(),
                os == sources@,
                c < 7,
                n == in_category(os, c as int, i as int),
                n <= i,
            decreases sources@.len() - i,
        {
            if category_of(sources[i]) == c {
                n += 1;
            }
            i += 1;
        }
        if n > 0 {
            let ghost before = cs@;
            cs.push((category_text(c), n));
            assert(counts_view(cs@) =~= counts_view(before).push((category_name(c as int), n as nat)));
            assert forall|q: int| 0 <= q < cs@.len() implies (#[trigger] cs@[q]).1 <= sources@.len() by {
                if q < before.len() {
                    assert(cs@[q] == before[q]);
                }
            }
        }
        c += 1;
    }
    // Most used first.
    let mut keys: Vec<i128> = Vec::new();
    let mut k: usize = 0;
    let ghost cv = counts_view(cs@);
    while k < cs.len()
        invariant
            k <= cs@.len(),
            cv == counts_view(cs@),
            keys@.len() == k,
            crate::analysis::keys_view(keys@) == cv.map_values(|x: (Seq<char>, nat)| -(x.1 as int)).take(k as int),
        decreases cs@.len() - k,
    {
        keys.push(-(cs[k].1 as i128));
        assert(crate::analysis::keys_view(keys@) =~= cv.map_values(|x: (Seq<char>, nat)| -(x.1 as int)).take(k + 1));
        k += 1;
    }
    assert(cv.map_values(|x: (Seq<char>, nat)| -(x.1 as int)).take(cs@.len() as int) =~= cv.map_values(
        |x: (Seq<char>, nat)| -(x.1 as int),
    ));
    let ord = crate::analysis::stable_order(keys.as_slice());
    let ghost ov = ord@.map_values(|j: usize| j as int);
    let mut out: Vec<(String, usize)> = Vec::new();
    let mut q: usize = 0;
    while q < ord.len()
        invariant
            q <= ord@.len(),
            ord@.len() == cs@.len(),
            ov == ord@.map_values(|j: usize| j as int),
            cv == counts_view(cs@),
            forall|x: int| 0 <= x < ord@.len() ==> #[trigger] ord@[x] < cs@.len(),
            out@.len() == q,
            counts_view(out@) == Seq::new(q as nat, |x: int| cv[ov[x]]),
        decreases ord@.len() - q,
    {
        let j = ord[q];
        let e = (string_of(chars_of(cs[j].0.as_str()).as_slice()), cs[j].1);
        let ghost before = out@;
        out.push(e);
        assert(counts_view(out@) =~= Seq::new((q + 1) as nat, |x: int| cv[ov[x]])) by {
            assert forall|x: int| 0 <= x < q + 1 implies #[trigger] counts_view(out@)[x] == cv[ov[x]] by {
                if x < q {
                    assert(out@[x] == before[x]);
                    assert(counts_view(before)[x] == Seq::new(q as nat, |x: int| cv[ov[x]])[x]);
                }
            }
        }
        q += 1;
    }
    out
}

} // verus!
