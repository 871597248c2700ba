use std::collections::HashMap;
use std::collections::HashSet;

use collect_memories::copy::{copy_plan, copy_step_action, AlreadyExists, CopyAction, CopyStep};
use collect_memories::scan::{RawEntry, RawListing};
use collect_memories::{leaf_handles, retrieve_files_recursively, reverse_file_paths};
use collect_memories::{FileSystemItem, ReversePath};

fn b(s: &str) -> Vec<u8> {
    s.as_bytes().to_vec()
}

fn path(parts: &[&str]) -> Vec<Vec<u8>> {
    parts.iter().map(|p| b(p)).collect()
}

/// An in-memory destination: which directories and files are there, and
/// what the files hold.
struct FakeDestination {
    dirs: HashSet<Vec<Vec<u8>>>,
    files: HashMap<Vec<Vec<u8>>, Vec<u8>>,
}

impl FakeDestination {
    fn new() -> FakeDestination {
        FakeDestination { dirs: HashSet::new(), files: HashMap::new() }
    }

    fn is_present(&self, p: &Vec<Vec<u8>>) -> bool {
        self.dirs.contains(p) || self.files.contains_key(p)
    }
}

/// Runs a copy plan against an in-memory source and destination, aborting
/// at the first failed step, as the real copier does.
fn run_plan(
    plan: &[CopyStep],
    source: &HashMap<Vec<Vec<u8>>, Vec<u8>>,
    dest: &mut FakeDestination,
) -> Result<u32, AlreadyExists> {
    let mut copied: u32 = 0;
    for step in plan {
        let target = match step {
            CopyStep::CreateDir { path } => path.clone(),
            CopyStep::CopyFile { path } => path.clone(),
        };
        match copy_step_action(step, dest.is_present(&target))? {
            CopyAction::TransferFile => {
                let bytes = source.get(&target).expect("source file present").clone();
                dest.files.insert(target, bytes);
                copied += 1;
            }
            CopyAction::MakeDirectory => {
                dest.dirs.insert(target);
            }
            CopyAction::Nothing => {}
        }
    }
    Ok(copied)
}

fn copy_file_paths(plan: &[CopyStep]) -> Vec<Vec<Vec<u8>>> {
    plan.iter()
        .filter_map(|s| match s {
            CopyStep::CopyFile { path } => Some(path.clone()),
            CopyStep::CreateDir { path: _ } => None,
        })
        .collect()
}

fn three_leaf_tree() -> FileSystemItem {
    let a = ReversePath::new(&b("a"));
    let ab = ReversePath::new_from_prefix(&a, &b("b"));
    let abc = ReversePath::new_from_prefix(&ab, &b("c"));
    let abd = ReversePath::new_from_prefix(&ab, &b("d"));
    let ae = ReversePath::new_from_prefix(&a, &b("e"));
    FileSystemItem::Directory(reverse_file_paths(&vec![abc, abd, ae]).unwrap())
}

#[test]
fn plan_copies_each_file_once() {
    let tree = three_leaf_tree();
    let plan = copy_plan(&tree, &Vec::new());
    let copies = copy_file_paths(&plan);
    assert_eq!(copies.len(), 3);
    assert!(copies.contains(&path(&["a", "b", "c"])));
    assert!(copies.contains(&path(&["a", "b", "d"])));
    assert!(copies.contains(&path(&["a", "e"])));
}

#[test]
fn plan_creates_directories_before_their_files() {
    let tree = three_leaf_tree();
    let plan = copy_plan(&tree, &Vec::new());
    // The root comes first, and every file's parent directory is created
    // at an earlier step.
    assert_eq!(plan[0], CopyStep::CreateDir { path: Vec::new() });
    for (i, step) in plan.iter().enumerate() {
        if let CopyStep::CopyFile { path } = step {
            let parent = path[..path.len() - 1].to_vec();
            let made_before = plan[..i].iter().any(|s| match s {
                CopyStep::CreateDir { path } => *path == parent,
                CopyStep::CopyFile { path: _ } => false,
            });
            assert!(made_before, "parent of {:?} made before the file", path);
        }
    }
}

#[test]
fn copying_three_files_returns_count_three() {
    let tree = three_leaf_tree();
    let plan = copy_plan(&tree, &Vec::new());
    let mut source = HashMap::new();
    source.insert(path(&["a", "b", "c"]), b("one"));
    source.insert(path(&["a", "b", "d"]), b("two"));
    source.insert(path(&["a", "e"]), b("three"));
    let mut dest = FakeDestination::new();
    let copied = run_plan(&plan, &source, &mut dest).expect("no conflict");
    assert_eq!(copied, 3);
    assert_eq!(dest.files.get(&path(&["a", "b", "c"])), Some(&b("one")));
    assert_eq!(dest.files.get(&path(&["a", "b", "d"])), Some(&b("two")));
    assert_eq!(dest.files.get(&path(&["a", "e"])), Some(&b("three")));
}

#[test]
fn existing_destination_file_aborts_before_later_files() {
    let tree = three_leaf_tree();
    let plan = copy_plan(&tree, &Vec::new());
    let copies = copy_file_paths(&plan);
    let conflict = copies[1].clone();

    let mut source = HashMap::new();
    source.insert(path(&["a", "b", "c"]), b("one"));
    source.insert(path(&["a", "b", "d"]), b("two"));
    source.insert(path(&["a", "e"]), b("three"));
    let mut dest = FakeDestination::new();
    dest.files.insert(conflict.clone(), b("already here"));

    let err = run_plan(&plan, &source, &mut dest).unwrap_err();
    assert_eq!(err, AlreadyExists { path: conflict.clone() });
    // The file before the conflict was copied; the one after was not, and
    // the conflicting file keeps its old content.
    assert_eq!(dest.files.get(&copies[0]), Some(&source[&copies[0]]));
    assert_eq!(dest.files.get(&conflict), Some(&b("already here")));
    assert_eq!(dest.files.get(&copies[2]), None);
}

#[test]
fn existing_destination_directories_are_reused() {
    let tree = three_leaf_tree();
    let plan = copy_plan(&tree, &Vec::new());
    let mut source = HashMap::new();
    source.insert(path(&["a", "b", "c"]), b("one"));
    source.insert(path(&["a", "b", "d"]), b("two"));
    source.insert(path(&["a", "e"]), b("three"));
    let mut dest = FakeDestination::new();
    dest.dirs.insert(Vec::new());
    dest.dirs.insert(path(&["a"]));
    let copied = run_plan(&plan, &source, &mut dest).expect("directories may pre-exist");
    assert_eq!(copied, 3);
}

#[test]
fn step_decisions_cover_all_cases() {
    let file_step = CopyStep::CopyFile { path: path(&["x"]) };
    let dir_step = CopyStep::CreateDir { path: path(&["y"]) };
    assert_eq!(copy_step_action(&file_step, false), Ok(CopyAction::TransferFile));
    assert_eq!(
        copy_step_action(&file_step, true),
        Err(AlreadyExists { path: path(&["x"]) })
    );
    assert_eq!(copy_step_action(&dir_step, false), Ok(CopyAction::MakeDirectory));
    assert_eq!(copy_step_action(&dir_step, true), Ok(CopyAction::Nothing));
}

#[test]
fn copy_plan_of_a_bare_file_is_one_step() {
    let plan = copy_plan(&FileSystemItem::File, &path(&["solo.jpg"]));
    assert_eq!(plan, vec![CopyStep::CopyFile { path: path(&["solo.jpg"]) }]);
}

#[test]
fn round_trip_reproduces_the_scanned_subset() {
    // A source tree with matching and non-matching files.
    let listing = RawListing::Entries(vec![
        RawEntry::Dir {
            name: b("holiday"),
            listing: RawListing::Entries(vec![
                RawEntry::File { name: b("beach.jpg") },
                RawEntry::File { name: b("notes.txt") },
                RawEntry::Dir {
                    name: b("day2"),
                    listing: RawListing::Entries(vec![RawEntry::File { name: b("hike.png") }]),
                },
            ]),
        },
        RawEntry::File { name: b("readme.txt") },
        RawEntry::File { name: b("cover.jpg") },
    ]);
    let mut source = HashMap::new();
    source.insert(path(&["holiday", "beach.jpg"]), b("sand"));
    source.insert(path(&["holiday", "day2", "hike.png"]), b("trail"));
    source.insert(path(&["cover.jpg"]), b("front"));

    // Scan, take every leaf as a handle, rebuild, and copy.
    let scanned = retrieve_files_recursively(&listing, &vec![b("jpg"), b("png")])
        .unwrap()
        .expect("matches exist");
    let scanned_dir = match &scanned {
        FileSystemItem::Directory(d) => d,
        _ => panic!("scan result is a directory"),
    };
    let handles: Vec<ReversePath> = leaf_handles(scanned_dir);
    assert_eq!(handles.len(), 3);
    let rebuilt = reverse_file_paths(&handles).expect("no collision");
    let plan = copy_plan(&FileSystemItem::Directory(rebuilt), &Vec::new());

    let mut dest = FakeDestination::new();
    let copied = run_plan(&plan, &source, &mut dest).expect("clean destination");
    assert_eq!(copied, 3);
    // Byte-identical content under the same relative layout, and nothing
    // else was copied.
    assert_eq!(dest.files.len(), 3);
    assert_eq!(dest.files.get(&path(&["holiday", "beach.jpg"])), Some(&b("sand")));
    assert_eq!(
        dest.files.get(&path(&["holiday", "day2", "hike.png"])),
        Some(&b("trail"))
    );
    assert_eq!(dest.files.get(&path(&["cover.jpg"])), Some(&b("front")));
}
