//! Map names.
//!
//! A map is uploaded under whatever version the server ran: `pl_upward_f12`,
//! `pl_upward_rc7`, `koth_product_final`. For anything a player thinks of as
//! "my upward games" those are one map, so the version comes off.
use crate::text::{
    all_alnum, alnum, chars_of, digit, has_prefix, is_alnum, is_digit, lower_s, lowered,
    rfind, rfind_in, same, slice_of, starts_with, string_of,
};
use vstd::prelude::*;

verus! {

/// Gamemode prefixes, in the order they are tried.
pub open spec fn prefixes() -> Seq<Seq<char>> {
    seq![
        "pl_"@,
        "koth_"@,
        "cp_"@,
        "ctf_"@,
        "plr_"@,
        "arena_"@,
        "tc_"@,
        "mvm_"@,
        "tow_"@,
        "pass_"@,
        "sd_"@,
        "pd_"@,
        "vsh_"@,
        "rd_"@,
        "trade_"@,
        "jump_"@,
    ]
}

fn prefix_list() -> (v: Vec<&'static str>)
    ensures
        v@.len() == prefixes().len(),
        forall|i: int| 0 <= i < v@.len() ==> #[trigger] v@[i]@ == prefixes()[i],
{
    let v = vec![
        "pl_",
        "koth_",
        "cp_",
        "ctf_",
        "plr_",
        "arena_",
        "tc_",
        "mvm_",
        "tow_",
        "pass_",
        "sd_",
        "pd_",
        "vsh_",
        "rd_",
        "trade_",
        "jump_",
    ];
    assert(v@.len() == 16);
    assert forall|i: int| 0 <= i < v@.len() implies #[trigger] v@[i]@ == prefixes()[i] by {
    }
    v
}

/// `m` without the first gamemode prefix, from position `i` of the list on,
/// that it starts with.
pub open spec fn strip_mode_from(m: Seq<char>, i: int) -> Seq<char>
    decreases prefixes().len() - i,
{
    if i < 0 || i >= prefixes().len() {
        m
    } else if starts_with(m, prefixes()[i]) {
        m.skip(prefixes()[i].len() as int)
    } else {
        strip_mode_from(m, i + 1)
    }
}

/// The first letters of a trailing word, before its first digit.
pub open spec fn letters_before_digit(s: Seq<char>) -> int
    decreases s.len(),
{
    if s.len() == 0 || is_digit(s[0]) {
        0
    } else {
        1 + letters_before_digit(s.drop_first())
    }
}

pub open spec fn known_version_word(a: Seq<char>) -> bool {
    a == "final"@ || a == "rc"@ || a == "b"@ || a == "f"@ || a == "v"@ || a == "a"@ || a == "pro"@
        || a == "rcx"@ || a == "finalx"@
}

/// Whether a trailing word is a version rather than part of the name:
/// `f12`, `rc10`, `final`, `b5b`, `pro`, `rcx`. `steel` and `product` are not.
pub open spec fn is_version_spec(s: Seq<char>) -> bool {
    let k = letters_before_digit(s);
    let alpha = s.take(k);
    let rest = s.skip(k);
    &&& known_version_word(alpha)
    &&& all_alnum(rest)
    &&& (rest.len() == 0 || is_digit(rest[0]) || alpha == "rcx"@ || alpha == "finalx"@)
}

/// Version words come off the end, one after another, until the last word
/// is part of the name.
pub open spec fn strip_versions(m: Seq<char>) -> Seq<char>
    decreases m.len(),
{
    match rfind(m, seq!['_']) {
        Some(i) => if 0 <= i < m.len() && is_version_spec(m.skip(i + 1)) {
            strip_versions(m.take(i))
        } else {
            m
        },
        None => m,
    }
}

/// A map without its prefix or its version: `pl_upward_f12` is `upward`.
pub open spec fn map_base_spec(map: Seq<char>) -> Seq<char> {
    strip_versions(strip_mode_from(lower_s(map), 0))
}

pub proof fn lemma_letters_before_digit(s: Seq<char>)
    ensures
        0 <= letters_before_digit(s) <= s.len(),
        forall|j: int| 0 <= j < letters_before_digit(s) ==> !is_digit(#[trigger] s[j]),
        letters_before_digit(s) < s.len() ==> is_digit(s[letters_before_digit(s)]),
    decreases s.len(),
{
    if s.len() > 0 && !is_digit(s[0]) {
        lemma_letters_before_digit(s.drop_first());
        assert forall|j: int| 0 <= j < letters_before_digit(s) implies !is_digit(#[trigger] s[j]) by {
            if j > 0 {
                assert(s[j] == s.drop_first()[j - 1]);
            }
        }
    }
}

fn is_word(a: &[char], w: &str) -> (b: bool)
    ensures
        b == (a@ == w@),
{
    let v = chars_of(w);
    same(a, v.as_slice())
}

/// Whether a trailing word is a version rather than part of the name.
pub fn is_version(s: &[char]) -> (b: bool)
    ensures
        b == is_version_spec(s@),
{
    let mut k: usize = 0;
    assert(s@.skip(0) =~= s@);
    while k < s.len() && !digit(s[k])
        invariant
            k <= s@.len(),
            letters_before_digit(s@) == k + letters_before_digit(s@.skip(k as int)),
        decreases s@.len() - k,
    {
        assert(s@.skip(k as int).drop_first() =~= s@.skip(k + 1));
        k += 1;
    }
    assert(letters_before_digit(s@.skip(k as int)) == 0);
    let alpha = slice_of(s, 0, k);
    let rest = slice_of(s, k, s.len());
    assert(alpha@ == s@.take(k as int));
    assert(rest@ == s@.skip(k as int));
    let a = alpha.as_slice();
    let extended = is_word(a, "rcx") || is_word(a, "finalx");
    let known = is_word(a, "final") || is_word(a, "rc") || is_word(a, "b") || is_word(a, "f")
        || is_word(a, "v") || is_word(a, "a") || is_word(a, "pro") || extended;
    assert(k == letters_before_digit(s@));
    assert(known == known_version_word(alpha@));
    if !known {
        return false;
    }
    if !crate::text::alnum_all(rest.as_slice()) {
        return false;
    }
    rest.len() == 0 || digit(rest[0]) || extended
}

/// How many characters the gamemode prefix takes from the front of `m`.
fn mode_prefix_len(m: &[char]) -> (r: usize)
    ensures
        r <= m@.len(),
        m@.skip(r as int) == strip_mode_from(m@, 0),
{
    let list = prefix_list();
    let mut i: usize = 0;
    while i < list.len()
        invariant
            i <= list@.len(),
            list@.len() == prefixes().len(),
            forall|x: int| 0 <= x < list@.len() ==> #[trigger] list@[x]@ == prefixes()[x],
            strip_mode_from(m@, 0) == strip_mode_from(m@, i as int),
        decreases list@.len() - i,
    {
        let p = chars_of(list[i]);
        if has_prefix(m, p.as_slice()) {
            return p.len();
        }
        i += 1;
    }
    assert(m@.skip(0) =~= m@);
    0
}

/// A map without its prefix or its version: `pl_upward_f12` is `upward`, and
/// `koth_product_final` is `product`.
pub fn map_base(map: &str) -> (r: String)
    ensures
        r@ == map_base_spec(map@),
{
    let cs = chars_of(map);
    let v = map_base_chars(cs.as_slice());
    string_of(v.as_slice())
}

pub fn map_base_chars(map: &[char]) -> (r: Vec<char>)
    ensures
        r@ == map_base_spec(map@),
{
    let m = lowered(map);
    let start = mode_prefix_len(m.as_slice());
    let mut cur = slice_of(m.as_slice(), start, m.len());
    assert(cur@ == m@.skip(start as int));
    let under: [char; 1] = ['_'];
    let under = under.as_slice();
    assert(under@ =~= seq!['_']);
    loop
        invariant
            under@ == seq!['_'],
            strip_versions(cur@) == map_base_spec(map@),
        decreases cur@.len(),
    {
        let i = match rfind_in(cur.as_slice(), under) {
            Some(i) => i,
            None => {
                return cur;
            },
        };
        proof {
            crate::text::lemma_rfind_bounds(cur@, seq!['_'], cur@.len() - 1);
            assert(crate::text::is_at(cur@, i as int, seq!['_']));
        }
        assert(i < cur.len());
        let tail = slice_of(cur.as_slice(), i + 1, cur.len());
        assert(tail@ == cur@.skip(i + 1));
        if !is_version(tail.as_slice()) {
            return cur;
        }
        cur = slice_of(cur.as_slice(), 0, i);
    }
}

} // verus!
