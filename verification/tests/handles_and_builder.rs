use collect_memories::builder::reverse_file_paths;
use collect_memories::tree::{Directory, FileSystemItem, TreeError};
use collect_memories::ReversePath;

fn b(s: &str) -> Vec<u8> {
    s.as_bytes().to_vec()
}

fn lookup<'a>(dir: &'a Directory, name: &str) -> &'a FileSystemItem {
    let want = b(name);
    for (n, item) in dir.content().iter() {
        if *n == want {
            return item;
        }
    }
    panic!("entry {} not found", name);
}

#[test]
fn materialize_extended_chain() {
    let root = ReversePath::new(&b("a"));
    let h2 = ReversePath::new_from_prefix(&root, &b("b"));
    let h3 = ReversePath::new_from_prefix(&h2, &b("c"));
    assert_eq!(h3.path(), vec![b("a"), b("b"), b("c")]);
}

#[test]
fn materialize_is_idempotent() {
    let root = ReversePath::new(&b("top"));
    let h = ReversePath::new_from_prefix(&root, &b("leaf.png"));
    assert_eq!(h.path(), h.path());
    assert_eq!(h.path(), vec![b("top"), b("leaf.png")]);
}

#[test]
fn shared_root_branches_do_not_interfere() {
    let root = ReversePath::new(&b("a"));
    let h_b = ReversePath::new_from_prefix(&root, &b("b"));
    let h_c = ReversePath::new_from_prefix(&h_b, &b("c"));
    let h_d = ReversePath::new_from_prefix(&root, &b("d"));
    let h_e = ReversePath::new_from_prefix(&h_d, &b("e"));
    assert_eq!(h_c.path(), vec![b("a"), b("b"), b("c")]);
    assert_eq!(h_e.path(), vec![b("a"), b("d"), b("e")]);
    assert_eq!(h_c.path(), vec![b("a"), b("b"), b("c")]);
}

#[test]
fn last_member_is_the_handle_component() {
    let root = ReversePath::new(&b("a"));
    let h = ReversePath::new_from_prefix(&root, &b("file.jpg"));
    assert_eq!(h.last_member().clone(), b("file.jpg"));
    assert_eq!(root.last_member().clone(), b("a"));
}

#[test]
fn cloned_handle_has_same_path() {
    let root = ReversePath::new(&b("x"));
    let h = ReversePath::new_from_prefix(&root, &b("y"));
    let c = h.clone();
    assert_eq!(c.path(), h.path());
}

#[test]
fn build_tree_from_three_leaves() {
    let a = ReversePath::new(&b("a"));
    let ab = ReversePath::new_from_prefix(&a, &b("b"));
    let abc = ReversePath::new_from_prefix(&ab, &b("c"));
    let abd = ReversePath::new_from_prefix(&ab, &b("d"));
    let ae = ReversePath::new_from_prefix(&a, &b("e"));
    let tree = reverse_file_paths(&vec![abc, abd, ae]).expect("no collision");

    assert_eq!(tree.content().len(), 1);
    let under_a = match lookup(&tree, "a") {
        FileSystemItem::Directory(d) => d,
        _ => panic!("a should be a directory"),
    };
    assert_eq!(under_a.content().len(), 2);
    let under_b = match lookup(under_a, "b") {
        FileSystemItem::Directory(d) => d,
        _ => panic!("a/b should be a directory"),
    };
    assert_eq!(under_b.content().len(), 2);
    assert!(matches!(lookup(under_b, "c"), FileSystemItem::File));
    assert!(matches!(lookup(under_b, "d"), FileSystemItem::File));
    assert!(matches!(lookup(under_a, "e"), FileSystemItem::File));
}

#[test]
fn build_tree_tolerates_duplicate_leaves() {
    let a = ReversePath::new(&b("a"));
    let ab1 = ReversePath::new_from_prefix(&a, &b("b"));
    let ab2 = ReversePath::new_from_prefix(&a, &b("b"));
    let tree = reverse_file_paths(&vec![ab1, ab2]).expect("duplicates collapse");
    assert_eq!(tree.content().len(), 1);
    let under_a = match lookup(&tree, "a") {
        FileSystemItem::Directory(d) => d,
        _ => panic!("a should be a directory"),
    };
    assert_eq!(under_a.content().len(), 1);
    assert!(matches!(lookup(under_a, "b"), FileSystemItem::File));
}

#[test]
fn build_tree_collision_of_file_and_directory() {
    // First handle makes "a/b" a file; the second needs "b" to be a
    // directory on the way to "a/b/c": a naming collision.
    let a = ReversePath::new(&b("a"));
    let ab = ReversePath::new_from_prefix(&a, &b("b"));
    let abc = ReversePath::new_from_prefix(&ab, &b("c"));
    let r = reverse_file_paths(&vec![ab.clone(), abc]);
    assert_eq!(r.unwrap_err(), TreeError::NameCollision { name: b("b") });
}

#[test]
fn build_tree_of_nothing_is_empty() {
    let tree = reverse_file_paths(&vec![]).expect("empty is fine");
    assert_eq!(tree.content().len(), 0);
}

#[test]
fn leaf_overwrites_directory_last_write_wins() {
    // "a/b/c" first makes "a/b" a directory; the bare leaf "a/b" then
    // overwrites that directory with a file, as map insertion does.
    let a = ReversePath::new(&b("a"));
    let ab = ReversePath::new_from_prefix(&a, &b("b"));
    let abc = ReversePath::new_from_prefix(&ab, &b("c"));
    let tree = reverse_file_paths(&vec![abc, ab]).expect("leaf overwrite is allowed");
    let under_a = match lookup(&tree, "a") {
        FileSystemItem::Directory(d) => d,
        _ => panic!("a should be a directory"),
    };
    assert!(matches!(lookup(under_a, "b"), FileSystemItem::File));
}

#[test]
fn default_directory_is_empty() {
    let d = Directory::default();
    assert_eq!(d.content().len(), 0);
    assert_eq!(d.len(), 0);
}
