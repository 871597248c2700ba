use collect_memories::scan::{name_has_matching_extension, RawEntry, RawListing};
use collect_memories::tree::{Directory, FileSystemItem, TreeError};
use collect_memories::retrieve_files_recursively;

fn b(s: &str) -> Vec<u8> {
    s.as_bytes().to_vec()
}

fn exts(names: &[&str]) -> Vec<Vec<u8>> {
    names.iter().map(|s| b(s)).collect()
}

fn file(name: &str) -> RawEntry {
    RawEntry::File { name: b(name) }
}

fn dir(name: &str, entries: Vec<RawEntry>) -> RawEntry {
    RawEntry::Dir { name: b(name), listing: RawListing::Entries(entries) }
}

fn lookup<'a>(d: &'a Directory, name: &str) -> Option<&'a FileSystemItem> {
    let want = b(name);
    for (n, item) in d.content().iter() {
        if *n == want {
            return Some(item);
        }
    }
    None
}

#[test]
fn extension_matching_is_case_insensitive() {
    let set = exts(&["jpg", "png"]);
    assert!(name_has_matching_extension(&b("photo.JPG"), &set));
    assert!(name_has_matching_extension(&b("photo.jpg"), &set));
    assert!(name_has_matching_extension(&b("shot.Png"), &set));
    assert!(!name_has_matching_extension(&b("notes.txt"), &set));
}

#[test]
fn name_without_extension_never_matches() {
    let set = exts(&["jpg", "gitignore", ""]);
    assert!(!name_has_matching_extension(&b("README"), &set));
    // A leading dot alone does not begin an extension.
    assert!(!name_has_matching_extension(&b(".gitignore"), &set));
    // A trailing dot gives an empty extension, which can match an empty
    // entry in the set.
    assert!(name_has_matching_extension(&b("odd."), &set));
}

#[test]
fn last_dot_decides_the_extension() {
    let set = exts(&["gz"]);
    assert!(name_has_matching_extension(&b("backup.tar.gz"), &set));
    assert!(!name_has_matching_extension(&b("gz.tar"), &set));
}

#[test]
fn scan_keeps_exactly_matching_files() {
    let listing = RawListing::Entries(vec![
        file("keep.jpg"),
        file("skip.txt"),
        RawEntry::Other { name: b("socket") },
        file("also.png"),
    ]);
    let r = retrieve_files_recursively(&listing, &exts(&["jpg", "png"])).unwrap();
    let item = r.expect("two files match");
    let d = match &item {
        FileSystemItem::Directory(d) => d,
        _ => panic!("scan result is a directory"),
    };
    assert_eq!(d.content().len(), 2);
    assert!(matches!(lookup(d, "keep.jpg"), Some(FileSystemItem::File)));
    assert!(matches!(lookup(d, "also.png"), Some(FileSystemItem::File)));
    assert!(lookup(d, "skip.txt").is_none());
    assert!(lookup(d, "socket").is_none());
}

#[test]
fn scan_omits_directories_without_matches() {
    let listing = RawListing::Entries(vec![
        dir("empty", vec![]),
        dir("only_text", vec![file("a.txt")]),
        dir("full", vec![file("b.jpg")]),
    ]);
    let r = retrieve_files_recursively(&listing, &exts(&["jpg"])).unwrap();
    let item = r.expect("one subdirectory has a match");
    let d = match &item {
        FileSystemItem::Directory(d) => d,
        _ => panic!("scan result is a directory"),
    };
    assert_eq!(d.content().len(), 1);
    let full = match lookup(d, "full") {
        Some(FileSystemItem::Directory(sub)) => sub,
        _ => panic!("full is kept as a directory"),
    };
    assert!(matches!(lookup(full, "b.jpg"), Some(FileSystemItem::File)));
}

#[test]
fn scan_of_nothing_matching_returns_none() {
    let listing = RawListing::Entries(vec![file("a.txt"), dir("sub", vec![file("b.txt")])]);
    let r = retrieve_files_recursively(&listing, &exts(&["jpg"])).unwrap();
    assert!(r.is_none());
}

#[test]
fn permission_denied_directory_is_treated_as_absent() {
    let denied = RawEntry::Dir { name: b("private"), listing: RawListing::Denied };
    let with_denied = RawListing::Entries(vec![denied, file("after.jpg")]);
    let without = RawListing::Entries(vec![file("after.jpg")]);
    let set = exts(&["jpg"]);
    let a = retrieve_files_recursively(&with_denied, &set).unwrap().unwrap();
    let b_ = retrieve_files_recursively(&without, &set).unwrap().unwrap();
    assert_eq!(a, b_);
}

#[test]
fn permission_denied_root_scans_to_none() {
    let r = retrieve_files_recursively(&RawListing::Denied, &exts(&["jpg"])).unwrap();
    assert!(r.is_none());
}

#[test]
fn io_failure_anywhere_aborts_the_scan() {
    let listing = RawListing::Entries(vec![
        file("first.jpg"),
        dir("sub", vec![RawEntry::Error { message: "unreadable entry".to_string() }]),
        file("last.jpg"),
    ]);
    let e = retrieve_files_recursively(&listing, &exts(&["jpg"])).unwrap_err();
    assert_eq!(e, TreeError::Io { message: "unreadable entry".to_string() });
}

#[test]
fn failed_listing_aborts_the_scan() {
    let listing = RawListing::Entries(vec![dir("ok", vec![file("x.jpg")]), RawEntry::Dir {
        name: b("bad"),
        listing: RawListing::Failed { message: "input error".to_string() },
    }]);
    let e = retrieve_files_recursively(&listing, &exts(&["jpg"])).unwrap_err();
    assert_eq!(e, TreeError::Io { message: "input error".to_string() });
}

#[test]
fn duplicate_names_are_a_collision() {
    let listing = RawListing::Entries(vec![file("twin.jpg"), file("twin.jpg")]);
    let e = retrieve_files_recursively(&listing, &exts(&["jpg"])).unwrap_err();
    assert_eq!(e, TreeError::NameCollision { name: b("twin.jpg") });
}

#[test]
fn duplicate_names_matter_only_when_both_are_kept() {
    let listing = RawListing::Entries(vec![file("twin.txt"), file("twin.jpg")]);
    let r = retrieve_files_recursively(&listing, &exts(&["jpg"])).unwrap();
    let item = r.expect("the jpg is kept");
    let d = match &item {
        FileSystemItem::Directory(d) => d,
        _ => panic!("scan result is a directory"),
    };
    assert_eq!(d.content().len(), 1);
}

#[test]
fn scan_of_empty_root_returns_none() {
    let r = retrieve_files_recursively(&RawListing::Entries(vec![]), &exts(&["jpg"])).unwrap();
    assert!(r.is_none());
}
