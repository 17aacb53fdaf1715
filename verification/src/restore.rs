//! Noticing when a backup should be offered back: a start that finds an
//! empty database with a copy worth going back to beside it, or one that
//! had to move an unreadable database aside to open at all.
use crate::backup::Backup;
use vstd::prelude::*;

verus! {

/// A backup worth going back to.
#[derive(Debug, Clone)]
pub struct BackupOffer {
    pub path: String,
    pub bytes: u64,
    /// Unix seconds.
    pub made_at: i64,
    /// Highlander matches inside it, so the offer is about what you get back
    /// rather than about a number of megabytes.
    pub matches: i64,
}

/// A backup worth going back to, and why we are asking.
#[derive(Debug, Clone)]
pub struct RestoreOffer {
    /// `empty`: the database opened and holds nothing. `unreadable`: it
    /// would not open at all and was moved aside.
    pub reason: &'static str,
    /// Where the unreadable file went.
    pub set_aside: Option<String>,
    /// The backup on offer; `None` when there is nothing to go back to, and
    /// the offer only explains.
    pub backup: Option<BackupOffer>,
}

/// The first backup, from `k` on, with matches in it.
pub open spec fn first_full(bs: Seq<(Backup, i64)>, k: int) -> Option<int>
    decreases bs.len() - k,
{
    if k < 0 || k >= bs.len() {
        None
    } else if bs[k].1 > 0 {
        Some(k)
    } else {
        first_full(bs, k + 1)
    }
}

pub open spec fn reason_spec(set_aside: Option<String>) -> Seq<char> {
    if set_aside is Some {
        "unreadable"@
    } else {
        "empty"@
    }
}

/// The offer for backup `b` holding `matches` matches.
pub open spec fn offer_of(b: Backup, matches: i64) -> BackupOffer {
    BackupOffer { path: b.path, bytes: b.bytes, made_at: b.made_at, matches }
}

/// Whether this start needs to say something before it asks for anything.
/// `indexed` is how many logs the database holds, `set_aside` the setting
/// left by moving an unreadable database aside, and `backups` the copies
/// beside it, newest first, each with the matches it holds. Nothing is
/// offered in every ordinary case: a database with matches in it, or a new
/// install with nothing behind it. An unreadable database is explained
/// either way; otherwise the first copy with matches in it is offered.
pub fn offer_from(indexed: i64, set_aside: Option<String>, backups: Vec<(Backup, i64)>) -> (r: Option<RestoreOffer>)
    ensures
        indexed > 0 ==> r is None,
        indexed <= 0 ==> match first_full(backups@, 0) {
            Some(i) => r matches Some(o) && o.reason@ == reason_spec(set_aside) && o.set_aside == set_aside
                && o.backup == Some(offer_of(backups@[i].0, backups@[i].1)),
            None => if set_aside is Some {
                r matches Some(o) && o.reason@ == "unreadable"@ && o.set_aside == set_aside && o.backup is None
            } else {
                r is None
            },
        },
{
    if indexed > 0 {
        return None;
    }
    let unreadable = set_aside.is_some();
    let reason: &'static str = if unreadable {
        "unreadable"
    } else {
        "empty"
    };
    let ghost src = backups@;
    let total = backups.len();
    let mut rest = backups;
    let mut n: usize = 0;
    let mut backup: Option<BackupOffer> = None;
    while rest.len() > 0
        invariant_except_break
            n + rest@.len() == src.len(),
            src.len() == total,
            rest@ == src.skip(n as int),
            backup is None,
            first_full(src, 0) == first_full(src, n as int),
        ensures
            match first_full(src, 0) {
                Some(i) => backup == Some(offer_of(src[i].0, src[i].1)),
                None => backup is None,
            },
        decreases rest@.len(),
    {
        let (b, matches) = rest.remove(0);
        assert((b, matches) == src[n as int]);
        assert(rest@ =~= src.skip(n + 1));
        if matches > 0 {
            backup = Some(BackupOffer { path: b.path, bytes: b.bytes, made_at: b.made_at, matches });
            break;
        }
        n += 1;
    }
    if backup.is_none() && !unreadable {
        return None;
    }
    Some(RestoreOffer { reason, set_aside, backup })
}

} // verus!
