//! Locating and validating the TF2 `tf` directory.
//!
//! Looking at the disk is the caller's: whether a path is a directory,
//! which marker files exist, how many demos each folder holds, what
//! `libraryfolders.vdf` says. What those findings mean is here: which
//! directory a nearly-right path stands for, whether it is a TF2 install,
//! and the notes shown under the folder picker.
use crate::error::Error;
use crate::text::{
    chars_of, dec, find, find_at, has_prefix, lemma_find_from_bounds, push_all, push_decimal,
    push_str, slice_of, starts_with, string_of, strip_prefix, trim, trim_bounds,
};
use vstd::prelude::*;

verus! {

/// A directory holding `.dem` files.
#[derive(Debug, Clone)]
pub struct DemoDir {
    pub path: String,
    pub demo_count: usize,
}

/// What we found at a candidate `tf` directory.
#[derive(Debug, Clone)]
pub struct TfPathInfo {
    pub path: String,
    /// True when this really looks like a TF2 `tf` directory.
    pub valid: bool,
    /// Every directory demos are read from: `tf` itself, where the `record`
    /// command writes, and `tf/demos`, where Demo Support writes.
    pub demo_dirs: Vec<DemoDir>,
    pub cfg_dir: Option<String>,
    /// Total `.dem` files across every directory in `demo_dirs`.
    pub demo_count: usize,
    /// Human-readable findings, shown under the picker in the UI.
    pub notes: Vec<String>,
}

/// How a given path was moved onto the `tf` directory.
#[derive(Debug, Clone, Copy, PartialEq, Eq, Structural)]
pub enum Adjust {
    /// Taken as given.
    Kept,
    /// The `Team Fortress 2` folder: its `tf` below was taken.
    Down,
    /// `tf/demos`: the `tf` above was taken.
    Up,
}

pub open spec fn adjust_spec(tf_below: bool, named_demos: bool, marker_above: bool) -> Adjust {
    if tf_below {
        Adjust::Down
    } else if named_demos && marker_above {
        Adjust::Up
    } else {
        Adjust::Kept
    }
}

/// Nudge a nearly-right path onto the actual `tf` directory: down into
/// `tf` when `tf/gameinfo.txt` is below it, up from a folder named `demos`
/// when a TF2 marker is beside it, else keep it.
pub fn adjust(tf_below: bool, named_demos: bool, marker_above: bool) -> (r: Adjust)
    ensures
        r == adjust_spec(tf_below, named_demos, marker_above),
{
    if tf_below {
        Adjust::Down
    } else if named_demos && marker_above {
        Adjust::Up
    } else {
        Adjust::Kept
    }
}

pub open spec fn not_a_directory_text(shown: Seq<char>) -> Seq<char> {
    seq!['`'] + shown + "` is not a directory"@
}

/// The refusal for a path that is not a directory at all.
pub fn not_a_directory(shown: &str) -> (e: Error)
    ensures
        e matches Error::InvalidTfPath(m) && m@ == not_a_directory_text(shown@),
{
    let mut out: Vec<char> = Vec::new();
    out.push('`');
    push_str(&mut out, shown);
    push_str(&mut out, "` is not a directory");
    Error::InvalidTfPath(string_of(out.as_slice()))
}

// ---------------------------------------------------------------------------
// Demo files
// ---------------------------------------------------------------------------

/// `Path::extension` of a bare file name: what follows the last `.`, unless
/// that dot starts the name.
pub open spec fn extension(name: Seq<char>) -> Option<Seq<char>> {
    match crate::text::rfind(name, seq!['.']) {
        Some(i) => if i > 0 {
            Some(name.skip(i + 1))
        } else {
            None
        },
        None => None,
    }
}

spec fn is_at_dot(s: Seq<char>, i: int) -> bool {
    crate::text::is_at(s, i, seq!['.'])
}

pub open spec fn is_demo_spec(name: Seq<char>) -> bool {
    extension(name) matches Some(e) && crate::text::lower_s(e) == "dem"@
}

/// Whether a file, by its name, is a demo: its extension is `dem` in any
/// case (`Path::extension`, then `eq_ignore_ascii_case`).
pub fn is_demo_name(name: &str) -> (b: bool)
    ensures
        b == is_demo_spec(name@),
{
    let cs = chars_of(name);
    let c = cs.as_slice();
    let dot: [char; 1] = ['.'];
    assert(dot@ =~= seq!['.']);
    match crate::text::rfind_in(c, dot.as_slice()) {
        Some(i) => {
            proof {
                crate::text::lemma_rfind_bounds(c@, seq!['.'], c@.len() - 1);
            }
            assert(c@.len() == c.len());
            assert(is_at_dot(c@, i as int));
            if i == 0 {
                return false;
            }
            let e = slice_of(c, i + 1, c.len());
            assert(e@ =~= c@.skip(i + 1));
            let l = crate::text::lowered(e.as_slice());
            let d = chars_of("dem");
            crate::text::same(l.as_slice(), d.as_slice())
        },
        None => false,
    }
}

// ---------------------------------------------------------------------------
// What a candidate directory is
// ---------------------------------------------------------------------------

pub open spec fn dirs_view(ds: Seq<DemoDir>) -> Seq<(Seq<char>, usize)> {
    ds.map_values(|d: DemoDir| (d.path@, d.demo_count))
}

pub open spec fn total(ds: Seq<(Seq<char>, usize)>) -> int
    decreases ds.len(),
{
    if ds.len() == 0 {
        0
    } else {
        total(ds.drop_last()) + ds.last().1
    }
}

/// `3 demo file(s) in `path`.` for each directory that holds any.
pub open spec fn dir_notes(ds: Seq<(Seq<char>, usize)>) -> Seq<Seq<char>>
    decreases ds.len(),
{
    if ds.len() == 0 {
        Seq::empty()
    } else {
        let d = ds.last();
        let prev = dir_notes(ds.drop_last());
        if d.1 > 0 {
            prev.push(dec(d.1 as nat) + " demo file(s) in `"@ + d.0 + "`."@)
        } else {
            prev
        }
    }
}

pub open spec fn adjust_note(a: Adjust) -> Seq<Seq<char>> {
    match a {
        Adjust::Kept => Seq::empty(),
        Adjust::Down => seq!["Adjusted to the `tf` subdirectory."@],
        Adjust::Up => seq!["Adjusted up from `demos` to the `tf` directory."@],
    }
}

pub open spec fn no_marker_note() -> Seq<char> {
    "No TF2 marker files found here (expected gameinfo.txt, tf2_misc_dir.vpk or cfg/)."@
}

pub open spec fn no_demos_note() -> Seq<char> {
    "No .dem files found yet — new recordings will be picked up automatically."@
}

/// The notes for a candidate: how it was adjusted, whether it lacks every
/// marker, and where its demos are (or that there are none yet).
pub open spec fn notes_spec(a: Adjust, valid: bool, ds: Seq<(Seq<char>, usize)>) -> Seq<Seq<char>> {
    adjust_note(a) + (if valid {
        Seq::empty()
    } else {
        seq![no_marker_note()]
    }) + (if total(ds) == 0 {
        seq![no_demos_note()]
    } else {
        dir_notes(ds)
    })
}

pub open spec fn texts(v: Seq<String>) -> Seq<Seq<char>> {
    v.map_values(|s: String| s@)
}

fn push_note(notes: &mut Vec<String>, s: &str)
    ensures
        texts(final(notes)@) == texts(old(notes)@).push(s@),
{
    let c = chars_of(s);
    notes.push(string_of(c.as_slice()));
    assert(texts(notes@) =~= texts(old(notes)@).push(s@));
}

/// What a candidate `tf` directory is, from what the caller found there:
/// the directory it settled on (`path`, after `adjusted`), how many of the
/// TF2 marker files exist in it, its demo directories with their counts,
/// and its `cfg` directory if there is one. It is valid when any marker is
/// there.
pub fn describe(
    path: String,
    adjusted: Adjust,
    markers_found: usize,
    demo_dirs: Vec<DemoDir>,
    cfg_dir: Option<String>,
) -> (r: TfPathInfo)
    requires
        total(dirs_view(demo_dirs@)) <= usize::MAX,
    ensures
        r.path@ == path@,
        r.valid == (markers_found > 0),
        dirs_view(r.demo_dirs@) == dirs_view(demo_dirs@),
        r.demo_count == total(dirs_view(demo_dirs@)),
        r.cfg_dir == cfg_dir,
        texts(r.notes@) == notes_spec(adjusted, markers_found > 0, dirs_view(demo_dirs@)),
{
    let ghost dv = dirs_view(demo_dirs@);
    let mut notes: Vec<String> = Vec::new();
    match adjusted {
        Adjust::Kept => {},
        Adjust::Down => push_note(&mut notes, "Adjusted to the `tf` subdirectory."),
        Adjust::Up => push_note(&mut notes, "Adjusted up from `demos` to the `tf` directory."),
    }
    proof {
        reveal_strlit("Adjusted to the `tf` subdirectory.");
        reveal_strlit("Adjusted up from `demos` to the `tf` directory.");
    }
    assert(texts(notes@) =~= adjust_note(adjusted));
    let valid = markers_found > 0;
    if !valid {
        push_note(
            &mut notes,
            "No TF2 marker files found here (expected gameinfo.txt, tf2_misc_dir.vpk or cfg/).",
        );
    }
    let ghost head = texts(notes@);
    assert(head =~= adjust_note(adjusted) + (if valid {
        Seq::empty()
    } else {
        seq![no_marker_note()]
    }));
    // The total, and the notes for the directories that hold demos.
    let mut count: usize = 0;
    let mut dir_lines: Vec<String> = Vec::new();
    let mut i: usize = 0;
    while i < demo_dirs.len()
        invariant
            i <= demo_dirs@.len(),
            dv == dirs_view(demo_dirs@),
            total(dv) <= usize::MAX,
            count == total(dv.take(i as int)),
            texts(dir_lines@) == dir_notes(dv.take(i as int)),
        decreases demo_dirs@.len() - i,
    {
        let ghost before = dv.take(i as int);
        assert(dv.take(i + 1).drop_last() =~= before);
        assert(dv.take(i + 1).last() == (demo_dirs@[i as int].path@, demo_dirs@[i as int].demo_count));
        proof {
            lemma_total_prefix(dv, i + 1);
        }
        let d = &demo_dirs[i];
        count = count + d.demo_count;
        if d.demo_count > 0 {
            let mut line: Vec<char> = Vec::new();
            push_decimal(&mut line, d.demo_count as u64);
            push_str(&mut line, " demo file(s) in `");
            push_str(&mut line, d.path.as_str());
            push_str(&mut line, "`.");
            let ghost was = texts(dir_lines@);
            dir_lines.push(string_of(line.as_slice()));
            assert(texts(dir_lines@) =~= was.push(line@));
        }
        i += 1;
    }
    assert(dv.take(demo_dirs@.len() as int) =~= dv);
    if count == 0 {
        push_note(&mut notes, "No .dem files found yet — new recordings will be picked up automatically.");
        assert(texts(notes@) =~= head + seq![no_demos_note()]);
    } else {
        let ghost was = texts(notes@);
        let mut k: usize = 0;
        while k < dir_lines.len()
            invariant
                k <= dir_lines@.len(),
                texts(notes@) == was + texts(dir_lines@).take(k as int),
            decreases dir_lines@.len() - k,
        {
            let line = chars_of(dir_lines[k].as_str());
            let ghost before = texts(notes@);
            notes.push(string_of(line.as_slice()));
            assert(texts(dir_lines@)[k as int] == line@);
            assert(texts(notes@) =~= before.push(line@));
            assert(texts(dir_lines@).take(k + 1) =~= texts(dir_lines@).take(k as int).push(line@));
            k += 1;
            assert(texts(notes@) =~= was + texts(dir_lines@).take(k as int));
        }
        assert(texts(dir_lines@).take(dir_lines@.len() as int) =~= texts(dir_lines@));
    }
    TfPathInfo { path, valid, demo_dirs, cfg_dir, demo_count: count, notes }
}

proof fn lemma_total_prefix(ds: Seq<(Seq<char>, usize)>, n: int)
    requires
        0 <= n <= ds.len(),
    ensures
        total(ds.take(n)) <= total(ds),
    decreases ds.len() - n,
{
    if n < ds.len() {
        lemma_total_prefix(ds, n + 1);
        assert(ds.take(n + 1).drop_last() =~= ds.take(n));
    } else {
        assert(ds.take(n) =~= ds);
    }
}

// ---------------------------------------------------------------------------
// Steam's library list
// ---------------------------------------------------------------------------

/// `str::replace("\\\\", "\\")`: each doubled backslash, left to right,
/// becomes one.
pub open spec fn undouble(s: Seq<char>) -> Seq<char>
    decreases s.len(),
{
    if s.len() == 0 {
        s
    } else if s.len() >= 2 && s[0] == '\\' && s[1] == '\\' {
        seq!['\\'] + undouble(s.skip(2))
    } else {
        seq![s[0]] + undouble(s.skip(1))
    }
}

/// `"path"  "D:\\SteamLibrary"`: the quoted value after a `"path"` key.
pub open spec fn vdf_path(line: Seq<char>) -> Option<Seq<char>> {
    match strip_prefix(trim(line), "\"path\""@) {
        None => None,
        Some(rest) => match find(rest, seq!['"']) {
            None => None,
            Some(q) => match find(rest.skip(q + 1), seq!['"']) {
                None => None,
                Some(l) => Some(undouble(rest.subrange(q + 1, q + 1 + l))),
            },
        },
    }
}

pub open spec fn opt_seq(o: Option<Seq<char>>) -> Seq<Seq<char>> {
    match o {
        Some(x) => seq![x],
        None => Seq::empty(),
    }
}

/// The library paths in a `libraryfolders.vdf`, line by line (`str::lines`).
pub open spec fn library_paths_spec(s: Seq<char>) -> Seq<Seq<char>>
    decreases s.len(),
{
    if s.len() == 0 {
        Seq::empty()
    } else {
        match find(s, seq!['\n']) {
            None => opt_seq(vdf_path(s)),
            Some(i) => {
                proof {
                    lemma_find_from_bounds(s, seq!['\n'], 0);
                }
                opt_seq(vdf_path(crate::rawlog::unterminated(s.take(i)))) + library_paths_spec(
                    s.skip(i + 1),
                )
            },
        }
    }
}

fn undoubled(s: &[char]) -> (r: Vec<char>)
    ensures
        r@ == undouble(s@),
{
    let mut out: Vec<char> = Vec::new();
    let mut i: usize = 0;
    assert(out@ + undouble(s@.skip(0)) =~= undouble(s@)) by {
        assert(s@.skip(0) =~= s@);
    }
    while i < s.len()
        invariant
            i <= s@.len(),
            out@ + undouble(s@.skip(i as int)) == undouble(s@),
        decreases s@.len() - i,
    {
        let ghost rest = s@.skip(i as int);
        if i + 1 < s.len() && s[i] == '\\' && s[i + 1] == '\\' {
            out.push('\\');
            assert(rest.skip(2) =~= s@.skip(i + 2));
            i += 2;
        } else {
            out.push(s[i]);
            assert(rest.skip(1) =~= s@.skip(i + 1));
            i += 1;
        }
        assert(out@ + undouble(s@.skip(i as int)) =~= undouble(s@));
    }
    assert(s@.skip(i as int) =~= Seq::<char>::empty());
    assert(out@ + undouble(Seq::<char>::empty()) =~= out@);
    out
}

fn path_of_line(line: &[char]) -> (r: Option<Vec<char>>)
    ensures
        match vdf_path(line@) {
            Some(p) => r matches Some(v) && v@ == p,
            None => r is None,
        },
{
    let (lo, hi) = trim_bounds(line);
    let t = slice_of(line, lo, hi);
    let key = chars_of("\"path\"");
    if !has_prefix(t.as_slice(), key.as_slice()) {
        return None;
    }
    let rest = slice_of(t.as_slice(), key.len(), t.len());
    assert(strip_prefix(t@, key@) == Some(rest@)) by {
        assert(rest@ =~= t@.skip(key@.len() as int));
    }
    let qc: [char; 1] = ['"'];
    assert(qc@ =~= seq!['"']);
    let q = match find_at(rest.as_slice(), qc.as_slice(), 0) {
        None => return None,
        Some(q) => q,
    };
    proof {
        lemma_find_from_bounds(rest@, seq!['"'], 0);
    }
    let tail = slice_of(rest.as_slice(), q + 1, rest.len());
    assert(tail@ =~= rest@.skip(q + 1));
    let l = match find_at(tail.as_slice(), qc.as_slice(), 0) {
        None => return None,
        Some(l) => l,
    };
    proof {
        lemma_find_from_bounds(tail@, seq!['"'], 0);
    }
    let v = slice_of(rest.as_slice(), q + 1, q + 1 + l);
    Some(undoubled(v.as_slice()))
}

/// The library folders `libraryfolders.vdf` declares: every `"path"` line's
/// value, doubled backslashes undone. A line scan rather than a real VDF
/// parser: the format is stable and the user can always pick by hand.
pub fn library_paths(vdf: &str) -> (r: Vec<String>)
    requires
        vdf@.len() < usize::MAX,
    ensures
        texts(r@) == library_paths_spec(vdf@),
{
    let cs = chars_of(vdf);
    let c = cs.as_slice();
    let nl: [char; 1] = ['\n'];
    assert(nl@ =~= seq!['\n']);
    let mut out: Vec<String> = Vec::new();
    let mut pos: usize = 0;
    assert(c@.skip(0) =~= c@);
    while pos < c.len()
        invariant
            c@ == vdf@,
            nl@ == seq!['\n'],
            pos <= c@.len(),
            texts(out@) + library_paths_spec(c@.skip(pos as int)) == library_paths_spec(vdf@),
        decreases c@.len() - pos,
    {
        let ghost rest = c@.skip(pos as int);
        let ghost was = texts(out@);
        proof {
            crate::rawlog::lemma_find_skip(c@, seq!['\n'], pos as int, 0);
            lemma_find_from_bounds(c@, seq!['\n'], pos as int);
        }
        let (line, next) = match find_at(c, nl.as_slice(), pos) {
            Some(i) => {
                let hi = if i > pos && c[i - 1] == '\r' {
                    i - 1
                } else {
                    i
                };
                let line = slice_of(c, pos, hi);
                assert(line@ == crate::rawlog::unterminated(rest.take(i - pos))) by {
                    if i > pos && c@[i - 1] == '\r' {
                        assert(line@ =~= rest.take(i - pos).drop_last());
                    } else {
                        assert(line@ =~= rest.take(i - pos));
                    }
                }
                assert(rest.skip(i - pos + 1) =~= c@.skip(i + 1));
                (line, i + 1)
            },
            None => {
                let line = slice_of(c, pos, c.len());
                assert(line@ =~= rest);
                assert(c@.skip(c@.len() as int) =~= Seq::<char>::empty());
                (line, c.len())
            },
        };
        let found = path_of_line(line.as_slice());
        let ghost got = vdf_path(line@);
        if let Some(p) = found {
            out.push(string_of(p.as_slice()));
        }
        assert(texts(out@) =~= was + opt_seq(got));
        assert(library_paths_spec(rest) == opt_seq(got) + library_paths_spec(c@.skip(next as int)));
        assert(texts(out@) + library_paths_spec(c@.skip(next as int)) =~= was + library_paths_spec(rest));
        pos = next;
    }
    assert(library_paths_spec(c@.skip(pos as int)) =~= Seq::<Seq<char>>::empty());
    assert(texts(out@) + Seq::<Seq<char>>::empty() =~= texts(out@));
    out
}

} // verus!
