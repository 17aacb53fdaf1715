use hl::backup::Backup;
use hl::restore::offer_from;

fn copy(name: &str, made_at: i64) -> Backup {
    Backup { path: format!("/data/backups/{name}"), bytes: 200 << 20, made_at }
}

#[test]
fn nothing_is_offered_on_a_new_install_or_a_full_database() {
    assert!(offer_from(0, None, vec![]).is_none(), "nothing to offer on a new install");
    assert!(offer_from(0, None, vec![(copy("hl-1.sqlite3", 10), 0)]).is_none(), "an empty copy is not an offer");
    assert!(offer_from(12, None, vec![(copy("hl-1.sqlite3", 10), 40)]).is_none(), "a database with matches needs nothing");
}

#[test]
fn an_empty_database_is_offered_the_first_copy_with_matches() {
    let found = offer_from(0, None, vec![(copy("hl-3.sqlite3", 30), 0), (copy("hl-2.sqlite3", 20), 1), (copy("hl-1.sqlite3", 10), 9)])
        .expect("the copy is worth offering");
    assert_eq!(found.reason, "empty");
    assert_eq!(found.set_aside, None);
    let b = found.backup.expect("a backup is on offer");
    assert_eq!((b.path.as_str(), b.made_at, b.matches), ("/data/backups/hl-2.sqlite3", 20, 1), "and says what is in it");
}

#[test]
fn an_unreadable_database_is_explained_even_with_nothing_to_go_back_to() {
    let offer = offer_from(0, Some("/data/hl.unreadable-20260925-101500.sqlite3|broken".into()), vec![])
        .expect("this is worth saying out loud");
    assert_eq!(offer.reason, "unreadable");
    assert!(offer.set_aside.unwrap().starts_with("/data/hl.unreadable-20260925-101500.sqlite3"));
    assert!(offer.backup.is_none(), "nothing was backed up");
}
