//! The demos in a `tf` directory: what their names and sidecars say.
use crate::text::{
    chars_of, digit, find_at, find_from, is_digit, lemma_find_from_bounds, rfind, rfind_in, same,
    slice_of, string_of, trim_start_char, trim_start_of,
};
use vstd::prelude::*;

verus! {

/// A tick-stamped marker from a Demo Support `.json` sidecar.
#[derive(Debug, Clone, PartialEq)]
pub struct SidecarEvent {
    pub name: String,
    pub value: Option<String>,
    pub tick: i64,
}

/// The character Demo Support writes at place `j` of its timestamp
/// `YYYY-MM-DD_HH-MM-SS`.
pub open spec fn stamp_char(j: int, c: char) -> bool {
    if j == 4 || j == 7 || j == 13 || j == 16 {
        c == '-'
    } else if j == 10 {
        c == '_'
    } else {
        is_digit(c)
    }
}

/// A timestamp starts at `k`.
pub open spec fn stamp_at(s: Seq<char>, k: int) -> bool {
    0 <= k && k + 19 <= s.len() && forall|j: int| 0 <= j < 19 ==> stamp_char(j, #[trigger] s[k + j])
}

/// The first timestamp from `k` on.
pub open spec fn first_stamp(s: Seq<char>, k: int) -> Option<int>
    decreases s.len() - k,
{
    if k < 0 || k + 19 > s.len() {
        None
    } else if stamp_at(s, k) {
        Some(k)
    } else {
        first_stamp(s, k + 1)
    }
}

/// `YYYY-MM-DD HH:MM:SS` from the first timestamp in a name.
pub open spec fn filename_time_spec(name: Seq<char>) -> Option<Seq<char>> {
    match first_stamp(name, 0) {
        None => None,
        Some(k) => Some(
            name.subrange(k, k + 10) + seq![' '] + name.subrange(k + 11, k + 13) + seq![':']
                + name.subrange(k + 14, k + 16) + seq![':'] + name.subrange(k + 17, k + 19),
        ),
    }
}

fn stamp_here(s: &[char], k: usize) -> (b: bool)
    requires
        k + 19 <= s@.len(),
    ensures
        b == stamp_at(s@, k as int),
{
    let mut j: usize = 0;
    assert(s@.len() == s.len());
    while j < 19
        invariant
            j <= 19,
            k + 19 <= s@.len(),
            s@.len() <= usize::MAX,
            forall|q: int| 0 <= q < j ==> stamp_char(q, #[trigger] s@[k + q]),
        decreases 19 - j,
    {
        let c = s[k + j];
        let ok = if j == 4 || j == 7 || j == 13 || j == 16 {
            c == '-'
        } else if j == 10 {
            c == '_'
        } else {
            digit(c)
        };
        if !ok {
            assert(!stamp_char(j as int, s@[k + j]));
            return false;
        }
        j += 1;
    }
    true
}

/// Demo Support names files `<prefix>YYYY-MM-DD_HH-MM-SS.dem`: the first
/// such timestamp in a name, as `YYYY-MM-DD HH:MM:SS` local wall time.
pub fn filename_time(name: &str) -> (r: Option<String>)
    ensures
        match filename_time_spec(name@) {
            Some(t) => r matches Some(v) && v@ == t,
            None => r is None,
        },
{
    let cs = chars_of(name);
    let s = cs.as_slice();
    let mut k: usize = 0;
    while k < s.len() && s.len() - k >= 19
        invariant
            s@ == name@,
            first_stamp(s@, 0) == first_stamp(s@, k as int),
        decreases s@.len() - k,
    {
        if stamp_here(s, k) {
            let mut out = slice_of(s, k, k + 10);
            out.push(' ');
            crate::text::push_all(&mut out, slice_of(s, k + 11, k + 13).as_slice());
            out.push(':');
            crate::text::push_all(&mut out, slice_of(s, k + 14, k + 16).as_slice());
            out.push(':');
            crate::text::push_all(&mut out, slice_of(s, k + 17, k + 19).as_slice());
            assert(out@ =~= filename_time_spec(name@).unwrap());
            return Some(string_of(out.as_slice()));
        }
        k += 1;
    }
    None
}

// ---------------------------------------------------------------------------
// playdemo names
// ---------------------------------------------------------------------------

/// A piece between `/`s that names something: not empty, not `.`.
pub open spec fn named_piece(p: Seq<char>) -> bool {
    p.len() > 0 && p != seq!['.']
}

/// The named pieces of `s` from `k` on, in order.
pub open spec fn parts_from(s: Seq<char>, k: int) -> Seq<Seq<char>>
    decreases s.len() + 1 - k,
{
    if k < 0 || k > s.len() {
        Seq::empty()
    } else {
        match find_from(s, seq!['/'], k) {
            Some(i) => if k <= i && i < s.len() {
                let p = s.subrange(k, i);
                let rest = parts_from(s, i + 1);
                if named_piece(p) {
                    seq![p] + rest
                } else {
                    rest
                }
            } else {
                Seq::empty()
            },
            None => {
                let p = s.subrange(k, s.len() as int);
                if named_piece(p) {
                    seq![p]
                } else {
                    Seq::empty()
                }
            },
        }
    }
}

/// A path's components as `std::path` reads them on Unix: `/` for the
/// root, `.` for a leading current directory, then the named pieces
/// (doubled separators and inner `.`s are skipped).
pub open spec fn components(s: Seq<char>) -> Seq<Seq<char>> {
    let lead = if s.len() > 0 && s[0] == '/' {
        seq![seq!['/']]
    } else if s.len() > 0 && s[0] == '.' && (s.len() == 1 || s[1] == '/') {
        seq![seq!['.']]
    } else {
        Seq::empty()
    };
    lead + parts_from(s, 0)
}

/// A file name without its extension (`Path::file_stem`); the root, `.`
/// and `..` have none, and neither has a name whose only dot leads it.
pub open spec fn stem(n: Seq<char>) -> Seq<char> {
    if n == seq!['/'] || n == seq!['.'] || n == seq!['.', '.'] {
        n
    } else {
        match rfind(n, seq!['.']) {
            Some(i) => if i > 0 {
                n.take(i)
            } else {
                n
            },
            None => n,
        }
    }
}

/// The components joined by `/`.
pub open spec fn joined(cs: Seq<Seq<char>>) -> Seq<char>
    decreases cs.len(),
{
    if cs.len() == 0 {
        Seq::empty()
    } else if cs.len() == 1 {
        cs[0]
    } else {
        joined(cs.drop_last()) + seq!['/'] + cs.last()
    }
}

/// The components of `path` below `tf`, or all of them when it is not
/// below `tf` (`Path::strip_prefix`).
pub open spec fn below(tf: Seq<char>, path: Seq<char>) -> Seq<Seq<char>> {
    let t = components(tf);
    let p = components(path);
    if t.len() <= p.len() && p.take(t.len() as int) == t {
        p.skip(t.len() as int)
    } else {
        p
    }
}

/// The name TF2's `playdemo` takes for a demo: its path relative to the
/// `tf` directory, without the extension, with `/` separators and no
/// leading `/`.
pub open spec fn playdemo_spec(tf: Seq<char>, path: Seq<char>) -> Seq<char> {
    let r = below(tf, path);
    let body = if r.len() > 0 && r[0] == seq!['/'] {
        r.drop_first()
    } else {
        r
    };
    let named = if body.len() > 0 {
        body.update(body.len() - 1, stem(body.last()))
    } else {
        body
    };
    trim_start_char(
        joined(named).map_values(
            |c: char|
                if c == '\\' {
                    '/'
                } else {
                    c
                },
        ),
        '/',
    )
}

pub open spec fn views(v: Seq<Vec<char>>) -> Seq<Seq<char>> {
    v.map_values(|x: Vec<char>| x@)
}

fn components_of(s: &[char]) -> (r: Vec<Vec<char>>)
    ensures
        views(r@) == components(s@),
{
    let mut out: Vec<Vec<char>> = Vec::new();
    if s.len() > 0 && s[0] == '/' {
        let v: Vec<char> = vec!['/'];
        assert(v@ =~= seq!['/']);
        out.push(v);
    } else if s.len() > 0 && s[0] == '.' && (s.len() == 1 || s[1] == '/') {
        let v: Vec<char> = vec!['.'];
        assert(v@ =~= seq!['.']);
        out.push(v);
    }
    let ghost lead = views(out@);
    assert(lead + parts_from(s@, 0) == components(s@)) by {
        if s@.len() > 0 && s@[0] == '/' {
            assert(lead =~= seq![seq!['/']]);
        } else if s@.len() > 0 && s@[0] == '.' && (s@.len() == 1 || s@[1] == '/') {
            assert(lead =~= seq![seq!['.']]);
        } else {
            assert(lead =~= Seq::<Seq<char>>::empty());
        }
    }
    let sl: Vec<char> = vec!['/'];
    assert(sl@ =~= seq!['/']);
    let n: usize = s.len();
    let mut k: usize = 0;
    loop
        invariant
            n == s@.len(),
            k <= s@.len(),
            sl@ == seq!['/'],
            views(out@) + parts_from(s@, k as int) == components(s@),
        decreases s@.len() - k,
    {
        proof {
            lemma_find_from_bounds(s@, seq!['/'], k as int);
        }
        match find_at(s, sl.as_slice(), k) {
            Some(i) => {
                let p = slice_of(s, k, i);
                let ghost rest = parts_from(s@, i + 1);
                if p.len() > 0 && !(p.len() == 1 && p[0] == '.') {
                    assert(named_piece(p@)) by {
                        if p@ == seq!['.'] {
                            assert(p@[0] == '.');
                        }
                    }
                    let ghost before = views(out@);
                    out.push(p);
                    assert(views(out@) =~= before.push(p@));
                    assert(before + (seq![p@] + rest) =~= before.push(p@) + rest);
                } else {
                    assert(!named_piece(p@)) by {
                        if p@.len() == 1 && p@[0] == '.' {
                            assert(p@ =~= seq!['.']);
                        }
                    }
                }
                k = i + 1;
            },
            None => {
                let p = slice_of(s, k, s.len());
                if p.len() > 0 && !(p.len() == 1 && p[0] == '.') {
                    assert(named_piece(p@)) by {
                        if p@ == seq!['.'] {
                            assert(p@[0] == '.');
                        }
                    }
                    let ghost before = views(out@);
                    out.push(p);
                    assert(views(out@) =~= before.push(p@));
                    assert(before + seq![p@] =~= before.push(p@));
                } else {
                    assert(!named_piece(p@)) by {
                        if p@.len() == 1 && p@[0] == '.' {
                            assert(p@ =~= seq!['.']);
                        }
                    }
                    assert(views(out@) + Seq::<Seq<char>>::empty() =~= views(out@));
                }
                return out;
            },
        }
    }
}

fn stem_of(n: &[char]) -> (r: Vec<char>)
    ensures
        r@ == stem(n@),
{
    let root = n.len() == 1 && n[0] == '/';
    let dot = n.len() == 1 && n[0] == '.';
    let dots = n.len() == 2 && n[0] == '.' && n[1] == '.';
    if root || dot || dots {
        proof {
            if root {
                assert(n@ =~= seq!['/']);
            }
            if dot {
                assert(n@ =~= seq!['.']);
            }
            if dots {
                assert(n@ =~= seq!['.', '.']);
            }
        }
        return slice_of(n, 0, n.len());
    }
    assert(n@ != seq!['/'] && n@ != seq!['.'] && n@ != seq!['.', '.']) by {
        if n@ == seq!['/'] {
            assert(n@[0] == '/');
        }
        if n@ == seq!['.'] {
            assert(n@[0] == '.');
        }
        if n@ == seq!['.', '.'] {
            assert(n@[0] == '.' && n@[1] == '.');
        }
    }
    let d: Vec<char> = vec!['.'];
    assert(d@ =~= seq!['.']);
    proof {
        crate::text::lemma_rfind_bounds(n@, seq!['.'], n@.len() - 1);
    }
    match rfind_in(n, d.as_slice()) {
        Some(i) => if i > 0 {
            slice_of(n, 0, i)
        } else {
            slice_of(n, 0, n.len())
        },
        None => slice_of(n, 0, n.len()),
    }
}

/// The name TF2's `playdemo` takes for the demo at `path`, relative to
/// the `tf` directory it resolves names against (`…/tf/demos/x.dem` ->
/// `demos/x`).
pub fn playdemo_arg(tf: &str, path: &str) -> (r: String)
    ensures
        r@ == playdemo_spec(tf@, path@),
{
    let tc = chars_of(tf);
    let pc = chars_of(path);
    let t = components_of(tc.as_slice());
    let p = components_of(pc.as_slice());
    let ghost tv = components(tf@);
    let ghost pv = components(path@);
    // Whether `t` is a prefix of `p`, component by component.
    let mut under = t.len() <= p.len();
    let mut j: usize = 0;
    while under && j < t.len()
        invariant
            views(t@) == tv,
            views(p@) == pv,
            j <= t@.len(),
            under ==> t@.len() <= p@.len(),
            under ==> pv.take(j as int) == tv.take(j as int),
            !under ==> !(tv.len() <= pv.len() && pv.take(tv.len() as int) == tv),
        decreases t@.len() - j + (if under {
            1int
        } else {
            0int
        }),
    {
        assert(tv[j as int] == t@[j as int]@);
        assert(pv[j as int] == p@[j as int]@);
        if !same(t[j].as_slice(), p[j].as_slice()) {
            under = false;
            assert(!(pv.take(tv.len() as int) == tv)) by {
                if pv.take(tv.len() as int) == tv {
                    assert(pv.take(tv.len() as int)[j as int] == tv[j as int]);
                }
            }
        } else {
            assert(pv.take(j + 1) =~= pv.take(j as int).push(pv[j as int]));
            assert(tv.take(j + 1) =~= tv.take(j as int).push(tv[j as int]));
            j += 1;
        }
    }
    let start: usize = if under {
        assert(tv.take(tv.len() as int) =~= tv);
        t.len()
    } else {
        0
    };
    let ghost rv = below(tf@, path@);
    assert(rv =~= pv.skip(start as int)) by {
        if under {
            assert(pv.take(tv.len() as int) == tv);
        }
        assert(pv.skip(0) =~= pv);
    }
    // Skip a leading root.
    let first: usize = if start < p.len() && p[start].len() == 1 && p[start][0] == '/' {
        start + 1
    } else {
        start
    };
    let ghost body = if rv.len() > 0 && rv[0] == seq!['/'] {
        rv.drop_first()
    } else {
        rv
    };
    assert(body =~= pv.skip(first as int)) by {
        if start < p@.len() {
            assert(rv[0] == p@[start as int]@);
            if rv[0] == seq!['/'] {
                assert(p@[start as int]@.len() == 1 && p@[start as int]@[0] == '/');
            }
            if p@[start as int]@.len() == 1 && p@[start as int]@[0] == '/' {
                assert(rv[0] =~= seq!['/']);
            }
        }
    }
    let ghost named = if body.len() > 0 {
        body.update(body.len() - 1, stem(body.last()))
    } else {
        body
    };
    // Join, the last component without its extension.
    let mut out: Vec<char> = Vec::new();
    let mut i: usize = first;
    while i < p.len()
        invariant
            first <= i <= p@.len(),
            views(p@) == pv,
            body == pv.skip(first as int),
            named == (if body.len() > 0 {
                body.update(body.len() - 1, stem(body.last()))
            } else {
                body
            }),
            out@ == joined(named.take(i - first)),
        decreases p@.len() - i,
    {
        let piece: Vec<char> = if i + 1 == p.len() {
            stem_of(p[i].as_slice())
        } else {
            slice_of(p[i].as_slice(), 0, p[i].len())
        };
        assert(piece@ == named[i - first]) by {
            assert(pv[i as int] == p@[i as int]@);
            assert(body[i - first] == pv[i as int]);
            assert(p@[i as int]@.subrange(0, p@[i as int]@.len() as int) =~= p@[i as int]@);
        }
        let ghost prev = out@;
        if i > first {
            out.push('/');
        }
        let mut c: usize = 0;
        while c < piece.len()
            invariant
                c <= piece@.len(),
                out@ == (if i > first {
                    prev + seq!['/']
                } else {
                    prev
                }) + piece@.take(c as int),
            decreases piece@.len() - c,
        {
            out.push(piece[c]);
            assert(piece@.take(c + 1) =~= piece@.take(c as int).push(piece@[c as int]));
            c += 1;
        }
        assert(piece@.take(piece@.len() as int) =~= piece@);
        assert(named.take(i + 1 - first).drop_last() =~= named.take(i - first));
        assert(named.take(i + 1 - first).last() == named[i - first]);
        if i == first {
            assert(prev =~= Seq::<char>::empty());
            assert(out@ =~= piece@);
        }
        i += 1;
    }
    assert(named.take(i - first) =~= named);
    // Backslashes become `/`; leading `/`s go.
    let mut fixed: Vec<char> = Vec::new();
    let mut c: usize = 0;
    while c < out.len()
        invariant
            c <= out@.len(),
            fixed@ == out@.take(c as int).map_values(
                |x: char|
                    if x == '\\' {
                        '/'
                    } else {
                        x
                    },
            ),
        decreases out@.len() - c,
    {
        let x = out[c];
        fixed.push(
            if x == '\\' {
                '/'
            } else {
                x
            },
        );
        assert(out@.take(c + 1) =~= out@.take(c as int).push(x));
        assert(fixed@ =~= out@.take(c + 1).map_values(
            |x: char|
                if x == '\\' {
                    '/'
                } else {
                    x
                },
        ));
        c += 1;
    }
    assert(out@.take(out@.len() as int) =~= out@);
    let lo = trim_start_of(fixed.as_slice(), '/');
    let v = slice_of(fixed.as_slice(), lo, fixed.len());
    assert(v@ =~= fixed@.skip(lo as int));
    string_of(v.as_slice())
}

} // verus!
