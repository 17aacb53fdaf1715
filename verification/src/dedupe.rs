//! Collapsing combined logs and their per-round parts into one match.
//!
//! trends.tf's `duplicate_of` sits on the **combined** log and lists the
//! per-round **parts** it was built from. Real data also has overlapping
//! combines, so every log connected through a shared part forms one group,
//! and each group keeps exactly one log: the longest, then the one built from
//! the most parts, then the newest upload.
use std::collections::HashMap;
use vstd::prelude::*;

verus! {

broadcast use vstd::std_specs::hash::group_hash_axioms;

#[derive(Debug, Clone)]
pub struct IndexEntry {
    pub log_id: i64,
    pub duration_s: i64,
    pub duplicate_of: Vec<i64>,
}

/// The link between entry `a` and its `b`-th part, when it is among the
/// links taken before entry `i`'s `j`-th part.
pub open spec fn link_before(es: Seq<IndexEntry>, i: int, j: int, a: int, b: int) -> bool {
    &&& 0 <= a < es.len()
    &&& 0 <= b < es[a].duplicate_of@.len()
    &&& (a < i || (a == i && b < j))
}

/// `s` is closed under those links: a log and its part are both in or both out.
pub open spec fn closed_upto(es: Seq<IndexEntry>, s: Set<i64>, i: int, j: int) -> bool {
    forall|a: int, b: int|
        #![trigger es[a].duplicate_of@[b], s.contains(es[a].log_id)]
        link_before(es, i, j, a, b) ==> (s.contains(es[a].log_id) <==> s.contains(
            es[a].duplicate_of@[b],
        ))
}

pub open spec fn closed(es: Seq<IndexEntry>, s: Set<i64>) -> bool {
    closed_upto(es, s, es.len() as int, 0)
}

/// `y` is reachable from `x` through those links: every closed set holding
/// `x` holds `y`.
pub open spec fn linked_upto(es: Seq<IndexEntry>, i: int, j: int, x: i64, y: i64) -> bool {
    forall|s: Set<i64>| #[trigger] closed_upto(es, s, i, j) && s.contains(x) ==> s.contains(y)
}

/// Two logs are in one group: connected through combined logs and shared parts.
pub open spec fn linked(es: Seq<IndexEntry>, x: i64, y: i64) -> bool {
    linked_upto(es, es.len() as int, 0, x, y)
}

/// The whole match beats any slice of it: longer first, then built from more
/// parts, then the newer upload.
pub open spec fn key_le(a: IndexEntry, b: IndexEntry) -> bool {
    ||| a.duration_s < b.duration_s
    ||| (a.duration_s == b.duration_s && a.duplicate_of@.len() < b.duplicate_of@.len())
    ||| (a.duration_s == b.duration_s && a.duplicate_of@.len() == b.duplicate_of@.len()
        && a.log_id <= b.log_id)
}

/// Entry `k` is the one entry `i`'s group keeps.
pub open spec fn is_keep(es: Seq<IndexEntry>, i: int, k: int) -> bool {
    &&& 0 <= k < es.len()
    &&& linked(es, es[i].log_id, es[k].log_id)
    &&& forall|f: int|
        0 <= f < es.len() && linked(es, es[i].log_id, #[trigger] es[f].log_id) ==> key_le(
            es[f],
            es[k],
        )
}

/// Entry `i`'s group has a log to keep.
pub open spec fn has_keep(es: Seq<IndexEntry>, i: int) -> bool {
    exists|k: int| #[trigger] is_keep(es, i, k)
}

/// The log entry `i`'s group keeps.
pub open spec fn keep_of(es: Seq<IndexEntry>, i: int) -> i64 {
    es[choose|k: int| is_keep(es, i, k)].log_id
}

/// The label of `x`: the group representative recorded for it, or itself.
pub open spec fn lab(v: Seq<(i64, i64)>, x: i64) -> i64
    decreases v.len(),
{
    if v.len() == 0 {
        x
    } else if v.last().0 == x {
        v.last().1
    } else {
        lab(v.drop_last(), x)
    }
}

pub open spec fn present(v: Seq<(i64, i64)>, x: i64) -> bool {
    exists|k: int| 0 <= k < v.len() && #[trigger] v[k].0 == x
}

pub open spec fn relabeled(v: Seq<(i64, i64)>, from: i64, to: i64) -> Seq<(i64, i64)> {
    v.map_values(|p: (i64, i64)| (p.0, if p.1 == from { to } else { p.1 }))
}

proof fn lemma_lab_present(v: Seq<(i64, i64)>, x: i64)
    requires
        present(v, x),
    ensures
        exists|k: int| 0 <= k < v.len() && v[k].0 == x && #[trigger] v[k].1 == lab(v, x),
    decreases v.len(),
{
    if v.last().0 == x {
        assert(v[v.len() - 1].1 == lab(v, x));
    } else {
        let k = choose|k: int| 0 <= k < v.len() && #[trigger] v[k].0 == x;
        assert(v.drop_last()[k].0 == x);
        lemma_lab_present(v.drop_last(), x);
        let k2 = choose|k2: int|
            0 <= k2 < v.drop_last().len() && v.drop_last()[k2].0 == x && #[trigger] v.drop_last()[k2].1
                == lab(v.drop_last(), x);
        assert(v[k2].1 == lab(v, x));
    }
}

proof fn lemma_lab_absent(v: Seq<(i64, i64)>, x: i64)
    requires
        !present(v, x),
    ensures
        lab(v, x) == x,
    decreases v.len(),
{
    if v.len() > 0 {
        assert(v[v.len() - 1].0 != x);
        assert forall|k: int| 0 <= k < v.drop_last().len() implies #[trigger] v.drop_last()[k].0 != x by {
            assert(v[k].0 != x);
        }
        lemma_lab_absent(v.drop_last(), x);
    }
}

proof fn lemma_lab_push(v: Seq<(i64, i64)>, x: i64, z: i64)
    requires
        !present(v, x),
    ensures
        lab(v.push((x, x)), z) == lab(v, z),
{
    assert(v.push((x, x)).drop_last() =~= v);
    if z == x {
        lemma_lab_absent(v, x);
    }
}

proof fn lemma_lab_relabel(v: Seq<(i64, i64)>, from: i64, to: i64, z: i64)
    ensures
        lab(relabeled(v, from, to), z) == (if present(v, z) && lab(v, z) == from {
            to
        } else {
            lab(v, z)
        }),
    decreases v.len(),
{
    if v.len() > 0 {
        let w = relabeled(v, from, to);
        assert(w.drop_last() =~= relabeled(v.drop_last(), from, to));
        lemma_lab_relabel(v.drop_last(), from, to, z);
        if v.last().0 == z {
            assert(present(v, z)) by {
                assert(v[v.len() - 1].0 == z);
            }
        } else {
            assert(present(v, z) == present(v.drop_last(), z)) by {
                if present(v, z) {
                    let k = choose|k: int| 0 <= k < v.len() && #[trigger] v[k].0 == z;
                    assert(v.drop_last()[k].0 == z);
                }
                if present(v.drop_last(), z) {
                    let k = choose|k: int|
                        0 <= k < v.drop_last().len() && #[trigger] v.drop_last()[k].0 == z;
                    assert(v[k].0 == z);
                }
            }
        }
    }
}

/// What the labels promise about the links taken so far.
pub open spec fn labels_inv(es: Seq<IndexEntry>, v: Seq<(i64, i64)>, i: int, j: int) -> bool {
    &&& forall|x: i64| present(v, x) ==> present(v, #[trigger] lab(v, x))
    &&& forall|x: i64, y: i64|
        #[trigger] lab(v, x) == #[trigger] lab(v, y) ==> linked_upto(es, i, j, x, y)
    &&& forall|a: int, b: int|
        #![trigger es[a].duplicate_of@[b]]
        link_before(es, i, j, a, b) ==> lab(v, es[a].log_id) == lab(v, es[a].duplicate_of@[b])
}

fn label_of(v: &Vec<(i64, i64)>, x: i64) -> (r: i64)
    ensures
        r == lab(v@, x),
{
    let mut k = v.len();
    assert(v@.take(v@.len() as int) =~= v@);
    while k > 0
        invariant
            k <= v@.len(),
            lab(v@, x) == lab(v@.take(k as int), x),
        decreases k,
    {
        assert(v@.take(k as int).drop_last() =~= v@.take(k - 1));
        if v[k - 1].0 == x {
            return v[k - 1].1;
        }
        k -= 1;
    }
    x
}

fn has_id(v: &Vec<(i64, i64)>, x: i64) -> (r: bool)
    ensures
        r == present(v@, x),
{
    let mut k: usize = 0;
    while k < v.len()
        invariant
            k <= v@.len(),
            forall|q: int| 0 <= q < k ==> #[trigger] v@[q].0 != x,
        decreases v@.len() - k,
    {
        if v[k].0 == x {
            return true;
        }
        k += 1;
    }
    false
}

fn add_id(v: &mut Vec<(i64, i64)>, x: i64)
    ensures
        present(final(v)@, x),
        forall|z: i64| present(old(v)@, z) ==> present(final(v)@, z),
        forall|z: i64| present(final(v)@, z) ==> present(old(v)@, z) || z == x,
        forall|z: i64| #[trigger] lab(final(v)@, z) == lab(old(v)@, z),
{
    if !has_id(v, x) {
        let ghost old_v = v@;
        v.push((x, x));
        proof {
            assert(v@[old_v.len() as int].0 == x);
            assert forall|z: i64| present(old_v, z) implies present(v@, z) by {
                let k = choose|k: int| 0 <= k < old_v.len() && #[trigger] old_v[k].0 == z;
                assert(v@[k].0 == z);
            }
            assert forall|z: i64| #[trigger] lab(v@, z) == lab(old_v, z) by {
                lemma_lab_push(old_v, x, z);
            }
            assert forall|z: i64| present(v@, z) implies present(old_v, z) || z == x by {
                let k = choose|k: int| 0 <= k < v@.len() && #[trigger] v@[k].0 == z;
                if k < old_v.len() {
                    assert(old_v[k].0 == z);
                }
            }
        }
    }
}

fn relabel(v: &Vec<(i64, i64)>, from: i64, to: i64) -> (w: Vec<(i64, i64)>)
    ensures
        w@ == relabeled(v@, from, to),
{
    let mut w: Vec<(i64, i64)> = Vec::new();
    let mut k: usize = 0;
    while k < v.len()
        invariant
            k <= v@.len(),
            w@ == relabeled(v@.take(k as int), from, to),
        decreases v@.len() - k,
    {
        let (id, l) = v[k];
        w.push((id, if l == from { to } else { l }));
        k += 1;
        assert(w@ =~= relabeled(v@.take(k as int), from, to));
    }
    assert(v@.take(v@.len() as int) =~= v@);
    w
}

/// A set closed under more links is closed under fewer.
proof fn lemma_closed_mono(es: Seq<IndexEntry>, s: Set<i64>, i: int, j: int, i2: int, j2: int)
    requires
        closed_upto(es, s, i2, j2),
        i < i2 || (i == i2 && j <= j2),
    ensures
        closed_upto(es, s, i, j),
{
    assert forall|a: int, b: int|
        #![trigger es[a].duplicate_of@[b], s.contains(es[a].log_id)]
        link_before(es, i, j, a, b) implies (s.contains(es[a].log_id) <==> s.contains(
            es[a].duplicate_of@[b],
        )) by {
        assert(link_before(es, i2, j2, a, b));
    }
}

/// Past the last part of entry `i` and at the first part of entry `i + 1`,
/// the same links have been taken.
proof fn lemma_closed_next_entry(es: Seq<IndexEntry>, s: Set<i64>, i: int)
    requires
        0 <= i < es.len(),
    ensures
        closed_upto(es, s, i, es[i].duplicate_of@.len() as int) == closed_upto(es, s, i + 1, 0),
{
    if closed_upto(es, s, i, es[i].duplicate_of@.len() as int) {
        assert forall|a: int, b: int|
            #![trigger es[a].duplicate_of@[b], s.contains(es[a].log_id)]
            link_before(es, i + 1, 0, a, b) implies (s.contains(es[a].log_id) <==> s.contains(
                es[a].duplicate_of@[b],
            )) by {
            assert(link_before(es, i, es[i].duplicate_of@.len() as int, a, b));
        }
    }
    if closed_upto(es, s, i + 1, 0) {
        lemma_closed_mono(es, s, i, es[i].duplicate_of@.len() as int, i + 1, 0);
    }
}

/// Taking the link between entry `i` and its `j`-th part.
proof fn lemma_union_step(
    es: Seq<IndexEntry>,
    v: Seq<(i64, i64)>,
    w: Seq<(i64, i64)>,
    i: int,
    j: int,
)
    requires
        0 <= i < es.len(),
        0 <= j < es[i].duplicate_of@.len(),
        labels_inv(es, v, i, j),
        present(v, es[i].log_id),
        present(v, es[i].duplicate_of@[j]),
        w == (if lab(v, es[i].log_id) == lab(v, es[i].duplicate_of@[j]) {
            v
        } else {
            relabeled(v, lab(v, es[i].log_id), lab(v, es[i].duplicate_of@[j]))
        }),
    ensures
        labels_inv(es, w, i, j + 1),
        forall|z: i64| present(w, z) == present(v, z),
{
    let a = es[i].log_id;
    let b = es[i].duplicate_of@[j];
    let la = lab(v, a);
    let lb = lab(v, b);
    assert forall|z: i64| present(w, z) == present(v, z) by {
        if present(w, z) {
            let k = choose|k: int| 0 <= k < w.len() && #[trigger] w[k].0 == z;
            assert(v[k].0 == z);
        }
        if present(v, z) {
            let k = choose|k: int| 0 <= k < v.len() && #[trigger] v[k].0 == z;
            assert(w[k].0 == z);
        }
    }
    // The new label of any id.
    assert forall|z: i64| #[trigger] lab(w, z) == (if lab(v, z) == la { lb } else { lab(v, z) }) by {
        if la != lb {
            lemma_lab_relabel(v, la, lb, z);
            if !present(v, z) {
                lemma_lab_absent(v, z);
                assert(present(v, la));
            }
        }
    }
    // Links taken before stay taken.
    assert forall|x: i64, y: i64| linked_upto(es, i, j, x, y) implies linked_upto(
        es,
        i,
        j + 1,
        x,
        y,
    ) by {
        assert forall|s: Set<i64>| #[trigger]
            closed_upto(es, s, i, j + 1) && s.contains(x) implies s.contains(y) by {
            lemma_closed_mono(es, s, i, j, i, j + 1);
        }
    }
    // Soundness: equal new labels mean linked.
    assert forall|x: i64, y: i64| #[trigger] lab(w, x) == #[trigger] lab(w, y) implies linked_upto(
        es,
        i,
        j + 1,
        x,
        y,
    ) by {
        if lab(v, x) == lab(v, y) {
        } else if lab(v, x) == la {
            // x ~ a, b ~ y
            assert(lab(v, y) == lb);
            assert(lab(v, x) == lab(v, a));
            assert(lab(v, b) == lab(v, y));
            assert forall|s: Set<i64>| #[trigger]
                closed_upto(es, s, i, j + 1) && s.contains(x) implies s.contains(y) by {
                lemma_closed_mono(es, s, i, j, i, j + 1);
                assert(linked_upto(es, i, j, x, a));
                assert(s.contains(a));
                assert(link_before(es, i, j + 1, i, j));
                assert(s.contains(b));
                assert(linked_upto(es, i, j, b, y));
            }
        } else {
            // x ~ b, a ~ y
            assert(lab(v, y) == la);
            assert(lab(v, x) == lb);
            assert(lab(v, x) == lab(v, b));
            assert(lab(v, a) == lab(v, y));
            assert forall|s: Set<i64>| #[trigger]
                closed_upto(es, s, i, j + 1) && s.contains(x) implies s.contains(y) by {
                lemma_closed_mono(es, s, i, j, i, j + 1);
                assert(linked_upto(es, i, j, x, b));
                assert(s.contains(b));
                assert(link_before(es, i, j + 1, i, j));
                assert(s.contains(a));
                assert(linked_upto(es, i, j, a, y));
            }
        }
    }
    // Completeness on the links taken, the new one included.
    assert forall|p: int, q: int|
        #![trigger es[p].duplicate_of@[q]]
        link_before(es, i, j + 1, p, q) implies lab(w, es[p].log_id) == lab(
            w,
            es[p].duplicate_of@[q],
        ) by {
        assert(lab(w, es[p].log_id) == (if lab(v, es[p].log_id) == la {
            lb
        } else {
            lab(v, es[p].log_id)
        }));
        assert(lab(w, es[p].duplicate_of@[q]) == (if lab(v, es[p].duplicate_of@[q]) == la {
            lb
        } else {
            lab(v, es[p].duplicate_of@[q])
        }));
        if !(p == i && q == j) {
            assert(link_before(es, i, j, p, q));
        }
    }
    // Every present id still has a present label.
    assert forall|x: i64| present(w, x) implies present(w, #[trigger] lab(w, x)) by {
        assert(present(v, x));
        assert(present(v, lab(v, x)));
        assert(present(v, b));
        assert(present(v, lb));
    }
}

/// Meeting a new log keeps every promise the labels make.
proof fn lemma_add_keeps_inv(
    es: Seq<IndexEntry>,
    v: Seq<(i64, i64)>,
    w: Seq<(i64, i64)>,
    x: i64,
    i: int,
    j: int,
)
    requires
        labels_inv(es, v, i, j),
        forall|z: i64| present(w, z) ==> present(v, z) || z == x,
        forall|z: i64| present(v, z) ==> present(w, z),
        present(w, x),
        forall|z: i64| #[trigger] lab(w, z) == lab(v, z),
    ensures
        labels_inv(es, w, i, j),
{
    assert forall|z: i64| present(w, z) implies present(w, #[trigger] lab(w, z)) by {
        if present(v, z) {
            assert(present(v, lab(v, z)));
        } else {
            lemma_lab_absent(v, z);
        }
    }
    assert forall|a: int, b: int|
        #![trigger es[a].duplicate_of@[b]]
        link_before(es, i, j, a, b) implies lab(w, es[a].log_id) == lab(w, es[a].duplicate_of@[b]) by {
        assert(lab(v, es[a].log_id) == lab(v, es[a].duplicate_of@[b]));
    }
    assert forall|y: i64, z: i64| #[trigger] lab(w, y) == #[trigger] lab(w, z) implies linked_upto(
        es,
        i,
        j,
        y,
        z,
    ) by {
        assert(lab(v, y) == lab(v, z));
    }
}

/// Labels in hand for every link, equal labels are exactly linked logs.
proof fn lemma_labels_exact(es: Seq<IndexEntry>, v: Seq<(i64, i64)>, x: i64, y: i64)
    requires
        labels_inv(es, v, es.len() as int, 0),
    ensures
        (lab(v, x) == lab(v, y)) == linked(es, x, y),
{
    if linked(es, x, y) {
        let s = Set::new(|z: i64| lab(v, z) == lab(v, x));
        assert(closed_upto(es, s, es.len() as int, 0)) by {
            assert forall|a: int, b: int|
                #![trigger es[a].duplicate_of@[b], s.contains(es[a].log_id)]
                link_before(es, es.len() as int, 0, a, b) implies (s.contains(es[a].log_id)
                <==> s.contains(es[a].duplicate_of@[b])) by {
                assert(lab(v, es[a].log_id) == lab(v, es[a].duplicate_of@[b]));
            }
        }
        assert(s.contains(x));
    }
}

/// Returns `superseded log -> the log that replaces it`. Logs absent from the
/// map are kept.
pub fn supersessions(entries: &[IndexEntry]) -> (out: HashMap<i64, i64>)
    ensures
        forall|i: int| 0 <= i < entries@.len() ==> #[trigger] has_keep(entries@, i),
        forall|i: int|
            0 <= i < entries@.len() ==> (out@.contains_key(#[trigger] entries@[i].log_id) <==> entries@[i].log_id
                != keep_of(entries@, i)),
        forall|i: int|
            0 <= i < entries@.len() && out@.contains_key(#[trigger] entries@[i].log_id) ==> out@[entries@[i].log_id]
                == keep_of(entries@, i),
        forall|x: i64|
            out@.contains_key(x) ==> exists|i: int|
                0 <= i < entries@.len() && #[trigger] entries@[i].log_id == x,
{
    let ghost es = entries@;
    let mut v: Vec<(i64, i64)> = Vec::new();
    let mut i: usize = 0;
    assert(labels_inv(es, v@, 0, 0)) by {
        assert forall|x: i64, y: i64| #[trigger] lab(v@, x) == #[trigger] lab(v@, y) implies linked_upto(
            es,
            0,
            0,
            x,
            y,
        ) by {}
    }
    while i < entries.len()
        invariant
            es == entries@,
            i <= es.len(),
            labels_inv(es, v@, i as int, 0),
        decreases es.len() - i,
    {
        let e = &entries[i];
        let ghost v0 = v@;
        add_id(&mut v, e.log_id);
        proof {
            lemma_add_keeps_inv(es, v0, v@, e.log_id, i as int, 0);
        }
        let mut j: usize = 0;
        while j < e.duplicate_of.len()
            invariant
                es == entries@,
                i < es.len(),
                e == es[i as int],
                j <= e.duplicate_of@.len(),
                labels_inv(es, v@, i as int, j as int),
                present(v@, e.log_id),
            decreases e.duplicate_of@.len() - j,
        {
            let part = e.duplicate_of[j];
            let ghost v0 = v@;
            add_id(&mut v, part);
            proof {
                lemma_add_keeps_inv(es, v0, v@, part, i as int, j as int);
            }
            let la = label_of(&v, e.log_id);
            let lb = label_of(&v, part);
            let ghost before = v@;
            if la != lb {
                v = relabel(&v, la, lb);
            }
            proof {
                lemma_union_step(es, before, v@, i as int, j as int);
            }
            j += 1;
        }
        proof {
            assert forall|x: i64, y: i64| #[trigger] lab(v@, x) == #[trigger] lab(v@, y) implies linked_upto(
                es,
                i + 1,
                0,
                x,
                y,
            ) by {
                assert(linked_upto(es, i as int, es[i as int].duplicate_of@.len() as int, x, y));
                assert forall|s: Set<i64>| #[trigger]
                    closed_upto(es, s, i + 1, 0) && s.contains(x) implies s.contains(y) by {
                    lemma_closed_next_entry(es, s, i as int);
                }
            }
            assert forall|a: int, b: int|
                #![trigger es[a].duplicate_of@[b]]
                link_before(es, i + 1, 0, a, b) implies lab(v@, es[a].log_id) == lab(
                    v@,
                    es[a].duplicate_of@[b],
                ) by {
                assert(link_before(es, i as int, es[i as int].duplicate_of@.len() as int, a, b));
            }
        }
        i += 1;
    }
    // Each entry's label, once.
    let mut labels: Vec<i64> = Vec::new();
    let mut k: usize = 0;
    while k < entries.len()
        invariant
            es == entries@,
            k <= es.len(),
            labels@.len() == k,
            forall|q: int| 0 <= q < k ==> #[trigger] labels@[q] == lab(v@, es[q].log_id),
        decreases es.len() - k,
    {
        labels.push(label_of(&v, entries[k].log_id));
        k += 1;
    }
    let mut out: HashMap<i64, i64> = HashMap::new();
    let mut i: usize = 0;
    while i < entries.len()
        invariant
            es == entries@,
            i <= es.len(),
            labels@.len() == es.len(),
            forall|q: int| 0 <= q < es.len() ==> #[trigger] labels@[q] == lab(v@, es[q].log_id),
            labels_inv(es, v@, es.len() as int, 0),
            forall|q: int|
                0 <= q < i ==> (out@.contains_key(#[trigger] es[q].log_id) <==> es[q].log_id
                    != keep_of(es, q)),
            forall|q: int|
                0 <= q < i && out@.contains_key(#[trigger] es[q].log_id) ==> out@[es[q].log_id]
                    == keep_of(es, q),
            forall|q: int| 0 <= q < i ==> #[trigger] has_keep(es, q),
            forall|x: i64|
                out@.contains_key(x) ==> exists|q: int| 0 <= q < i && #[trigger] es[q].log_id == x,
        decreases es.len() - i,
    {
        let mine = labels[i];
        let mut best: usize = i;
        let mut f: usize = 0;
        while f < entries.len()
            invariant
                es == entries@,
                i < es.len(),
                f <= es.len(),
                best < es.len(),
                labels@.len() == es.len(),
                forall|q: int| 0 <= q < es.len() ==> #[trigger] labels@[q] == lab(v@, es[q].log_id),
                labels_inv(es, v@, es.len() as int, 0),
                mine == labels@[i as int],
                labels@[best as int] == mine,
                forall|q: int|
                    0 <= q < f && #[trigger] labels@[q] == mine ==> key_le(es[q], es[best as int]),
            decreases es.len() - f,
        {
            if labels[f] == mine {
                let a = &entries[f];
                let b = &entries[best];
                let better = a.duration_s > b.duration_s || (a.duration_s == b.duration_s
                    && a.duplicate_of.len() > b.duplicate_of.len()) || (a.duration_s
                    == b.duration_s && a.duplicate_of.len() == b.duplicate_of.len() && a.log_id
                    >= b.log_id);
                if better {
                    best = f;
                }
            }
            f += 1;
        }
        proof {
            lemma_labels_exact(es, v@, es[i as int].log_id, es[best as int].log_id);
            assert forall|q: int|
                0 <= q < es.len() && linked(es, es[i as int].log_id, #[trigger] es[q].log_id) implies key_le(
                es[q],
                es[best as int],
            ) by {
                lemma_labels_exact(es, v@, es[i as int].log_id, es[q].log_id);
                assert(labels@[q] == lab(v@, es[q].log_id));
                assert(labels@[i as int] == lab(v@, es[i as int].log_id));
                assert(labels@[q] == mine);
            }
            assert(is_keep(es, i as int, best as int));
            let k = choose|k: int| is_keep(es, i as int, k);
            // Two keeps of one group have the same key, hence the same log.
            assert(key_le(es[k], es[best as int]));
            assert(key_le(es[best as int], es[k])) by {
                assert(linked(es, es[i as int].log_id, es[best as int].log_id));
            }
            assert(es[k].log_id == es[best as int].log_id);
        }
        let keep = entries[best].log_id;
        let id = entries[i].log_id;
        assert(keep_of(es, i as int) == keep);
        let ghost old_out = out@;
        if id != keep {
            out.insert(id, keep);
        }
        assert(id != keep ==> out@ == old_out.insert(id, keep));
        assert(id == keep ==> out@ == old_out);
        proof {
            assert forall|q: int|
                0 <= q < i + 1 implies (out@.contains_key(#[trigger] es[q].log_id) <==> es[q].log_id
                != keep_of(es, q)) by {
                if q == i {
                    if id == keep && old_out.contains_key(id) {
                        let q2 = choose|q2: int| 0 <= q2 < i && #[trigger] es[q2].log_id == id;
                        assert(old_out.contains_key(es[q2].log_id) <==> es[q2].log_id != keep_of(es, q2));
                        same_log_same_keep(es, q2, i as int);
                    }
                } else if es[q].log_id != id {
                    assert(old_out.contains_key(es[q].log_id) <==> es[q].log_id != keep_of(es, q));
                } else {
                    assert(old_out.contains_key(es[q].log_id) <==> es[q].log_id != keep_of(es, q));
                    // The same log twice is in one group with one keep.
                    assert(linked(es, es[q].log_id, es[i as int].log_id)) by {
                        assert forall|s: Set<i64>| #[trigger]
                            closed_upto(es, s, es.len() as int, 0) && s.contains(
                                es[q].log_id,
                            ) implies s.contains(es[i as int].log_id) by {}
                    }
                    same_log_same_keep(es, q, i as int);
                }
            }
            assert forall|q: int|
                0 <= q < i + 1 && out@.contains_key(#[trigger] es[q].log_id) implies out@[es[q].log_id]
                == keep_of(es, q) by {
                if q < i && es[q].log_id == es[i as int].log_id {
                    same_log_same_keep(es, q, i as int);
                }
            }
            assert forall|q: int| 0 <= q < i + 1 implies #[trigger] has_keep(es, q) by {
                if q == i {
                    assert(is_keep(es, i as int, best as int));
                }
            }
            assert forall|x: i64| out@.contains_key(x) implies exists|q: int|
                0 <= q < i + 1 && #[trigger] es[q].log_id == x by {
                if x == id {
                    assert(es[i as int].log_id == x);
                }
            }
        }
        i += 1;
    }
    out
}

/// Two entries of the same log share their group's keep.
proof fn same_log_same_keep(es: Seq<IndexEntry>, q: int, r: int)
    requires
        0 <= q < es.len(),
        0 <= r < es.len(),
        es[q].log_id == es[r].log_id,
        has_keep(es, q),
    ensures
        keep_of(es, q) == keep_of(es, r),
        has_keep(es, r),
{
    let k = choose|k: int| is_keep(es, q, k);
    assert(is_keep(es, r, k));
    let k2 = choose|k: int| is_keep(es, r, k);
    assert(key_le(es[k], es[k2]));
    assert(key_le(es[k2], es[k]));
}

/// Being in one group goes both ways.
pub proof fn lemma_linked_symmetric(es: Seq<IndexEntry>, x: i64, y: i64)
    requires
        linked(es, x, y),
    ensures
        linked(es, y, x),
{
    assert forall|s: Set<i64>| #[trigger]
        closed_upto(es, s, es.len() as int, 0) && s.contains(y) implies s.contains(x) by {
        if !s.contains(x) {
            let c = s.complement();
            assert(closed_upto(es, c, es.len() as int, 0)) by {
                assert forall|a: int, b: int|
                    #![trigger es[a].duplicate_of@[b], c.contains(es[a].log_id)]
                    link_before(es, es.len() as int, 0, a, b) implies (c.contains(es[a].log_id)
                    <==> c.contains(es[a].duplicate_of@[b])) by {
                    assert(s.contains(es[a].log_id) <==> s.contains(es[a].duplicate_of@[b]));
                }
            }
            assert(c.contains(x));
            assert(c.contains(y));
        }
    }
}

/// Groups chain: a log in `y`'s group, with `y` in `x`'s, is in `x`'s.
pub proof fn lemma_linked_transitive(es: Seq<IndexEntry>, x: i64, y: i64, z: i64)
    requires
        linked(es, x, y),
        linked(es, y, z),
    ensures
        linked(es, x, z),
{
    assert forall|s: Set<i64>| #[trigger]
        closed_upto(es, s, es.len() as int, 0) && s.contains(x) implies s.contains(z) by {
        assert(s.contains(y));
    }
}

/// Two logs in one group are kept or superseded in favour of the same log.
pub proof fn lemma_one_keep_per_group(es: Seq<IndexEntry>, q: int, r: int)
    requires
        0 <= q < es.len(),
        0 <= r < es.len(),
        linked(es, es[q].log_id, es[r].log_id),
        has_keep(es, q),
    ensures
        has_keep(es, r),
        keep_of(es, q) == keep_of(es, r),
{
    let k = choose|k: int| is_keep(es, q, k);
    lemma_linked_symmetric(es, es[q].log_id, es[r].log_id);
    lemma_linked_transitive(es, es[r].log_id, es[q].log_id, es[k].log_id);
    assert forall|f: int|
        0 <= f < es.len() && linked(es, es[r].log_id, #[trigger] es[f].log_id) implies key_le(
        es[f],
        es[k],
    ) by {
        lemma_linked_transitive(es, es[q].log_id, es[r].log_id, es[f].log_id);
    }
    assert(is_keep(es, r, k));
    let k2 = choose|k2: int| is_keep(es, r, k2);
    assert(key_le(es[k2], es[k]));
    assert(key_le(es[k], es[k2])) by {
        lemma_linked_transitive(es, es[q].log_id, es[r].log_id, es[k2].log_id);
    }
}

/// The log a group keeps is kept itself: it is never superseded, so no log
/// is replaced by one that is replaced in turn.
pub proof fn lemma_keep_is_kept(es: Seq<IndexEntry>, i: int)
    requires
        0 <= i < es.len(),
        has_keep(es, i),
    ensures
        exists|k: int|
            0 <= k < es.len() && es[k].log_id == keep_of(es, i) && #[trigger] keep_of(es, k)
                == es[k].log_id,
{
    let k = choose|k: int| is_keep(es, i, k);
    lemma_one_keep_per_group(es, i, k);
    let k2 = choose|k2: int| is_keep(es, k, k2);
    assert(is_keep(es, k, k)) by {
        assert forall|s: Set<i64>| #[trigger]
            closed_upto(es, s, es.len() as int, 0) && s.contains(es[k].log_id) implies s.contains(
            es[k].log_id,
        ) by {}
        assert forall|f: int|
            0 <= f < es.len() && linked(es, es[k].log_id, #[trigger] es[f].log_id) implies key_le(
            es[f],
            es[k],
        ) by {
            lemma_linked_transitive(es, es[i].log_id, es[k].log_id, es[f].log_id);
        }
    }
    assert(key_le(es[k2], es[k]));
    assert(key_le(es[k], es[k2]));
    assert(keep_of(es, k) == es[k].log_id);
}

} // verus!
