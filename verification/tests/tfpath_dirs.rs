use hl::error::Error;
use hl::tfpath::{adjust, describe, is_demo_name, library_paths, not_a_directory, Adjust, DemoDir};
use std::path::Path;

#[test]
fn rejects_a_path_that_is_not_a_directory() {
    let path = "this-path-does-not-exist-12345";
    assert!(!Path::new(path).is_dir());
    match not_a_directory(path) {
        Error::InvalidTfPath(m) => assert!(m.contains(path)),
        other => panic!("{other:?}"),
    }
}

#[test]
fn the_refusal_names_the_path() {
    match not_a_directory("C:/nope") {
        Error::InvalidTfPath(m) => assert_eq!(m, "`C:/nope` is not a directory"),
        other => panic!("{other:?}"),
    }
}

#[test]
fn extracts_library_paths_from_vdf_lines() {
    let found = library_paths("\"libraryfolders\"\n{\n\t\"0\"\n\t{\n\t\t\"path\"\t\t\"D:\\\\SteamLibrary\"\n\t}\n}\n");
    assert_eq!(found, vec!["D:\\SteamLibrary".to_string()]);
}

#[test]
fn library_lines_need_a_quoted_value() {
    assert!(library_paths("\"path\" unquoted\r\n\"paths\"").is_empty());
    assert_eq!(library_paths("  \"path\" \"E:\\\\a\\\\b\"\r\n\"path\" \"F:\""), vec!["E:\\a\\b", "F:"]);
}

#[test]
fn demo_files_are_told_by_their_extension() {
    assert!(is_demo_name("ds_one.dem"));
    assert!(is_demo_name("ROOT.DEM"));
    assert!(!is_demo_name("ds_one.json"));
    assert!(!is_demo_name(".dem"));
    assert!(!is_demo_name("dem"));
    assert!(is_demo_name("a.b.dem"));
}

#[test]
fn a_near_miss_is_adjusted_onto_tf() {
    assert_eq!(adjust(true, true, true), Adjust::Down);
    assert_eq!(adjust(false, true, true), Adjust::Up);
    assert_eq!(adjust(false, true, false), Adjust::Kept);
    assert_eq!(adjust(false, false, true), Adjust::Kept);
}

#[test]
fn counts_demos_in_both_directories_and_says_where() {
    let dirs = vec![DemoDir { path: "tf".into(), demo_count: 1 }, DemoDir { path: "tf/demos".into(), demo_count: 2 }];
    let info = describe("tf".into(), Adjust::Down, 2, dirs, Some("tf/cfg".into()));
    assert!(info.valid);
    assert_eq!(info.demo_count, 3);
    assert_eq!(
        info.notes,
        ["Adjusted to the `tf` subdirectory.", "1 demo file(s) in `tf`.", "2 demo file(s) in `tf/demos`."]
    );
    let empty = describe("x".into(), Adjust::Kept, 0, vec![], None);
    assert!(!empty.valid);
    assert_eq!(empty.demo_count, 0);
    assert_eq!(empty.notes.len(), 2);
    assert!(empty.notes[1].starts_with("No .dem files found yet"));
}
