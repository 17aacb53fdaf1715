//! One writer at a time: while the app runs it holds a lock beside the
//! database, and every other tool refuses to open the database until it
//! lets go. Taking and testing the lock is file work for the caller; the
//! decision is here.
use vstd::prelude::*;

verus! {

pub open spec fn busy_text(db: Seq<char>) -> Seq<char> {
    "the app has this database open ("@ + db + ").\n\
     Close the app window and run this again.\n\
     Two processes writing one SQLite file is what corrupted this database twice on\n\
     25 September 2026. Pass --force only if you know the app is not running."@
}

/// Refuse to go on while the app has the database (`in_use`), unless told
/// to anyway (`force`). `db` is the database's path as shown to the user.
pub fn require_free(in_use: bool, force: bool, db: &str) -> (r: Result<(), String>)
    ensures
        !in_use || force ==> r is Ok,
        in_use && !force ==> (r matches Err(m) && m@ == busy_text(db@)),
{
    if !in_use || force {
        return Ok(());
    }
    let mut out: Vec<char> = Vec::new();
    crate::text::push_str(&mut out, "the app has this database open (");
    crate::text::push_str(&mut out, db);
    crate::text::push_str(
        &mut out,
        ").\n\
         Close the app window and run this again.\n\
         Two processes writing one SQLite file is what corrupted this database twice on\n\
         25 September 2026. Pass --force only if you know the app is not running.",
    );
    proof {
        reveal_strlit("the app has this database open (");
        reveal_strlit(
            ").\n\
             Close the app window and run this again.\n\
             Two processes writing one SQLite file is what corrupted this database twice on\n\
             25 September 2026. Pass --force only if you know the app is not running.",
        );
    }
    Err(crate::text::string_of(out.as_slice()))
}

} // verus!
