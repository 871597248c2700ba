//! The tree builder: reconstructs the minimal directory tree that contains
//! every path of a sequence of handles. Ancestor directories are created as
//! needed; the final component becomes a file entry, overwriting whatever
//! held that name; a path running through an existing file is a naming
//! collision, surfaced as a recoverable error.

use vstd::prelude::*;

use crate::handle::ReversePath;
use crate::tree::Directory;
use crate::tree::FileSystemItem;
use crate::tree::ItemModel;
use crate::tree::TreeError;
use crate::tree::TreeErrorModel;
use crate::tree::all_dirs_filled;
use crate::tree::entries_model;
use crate::tree::lemma_entries_model_dom;
use crate::tree::lemma_entries_model_push;
use crate::tree::lemma_entries_model_update;
use crate::tree::lemma_entries_model_value;

verus! {

/// Inserting one path into a directory map: each ancestor component must
/// name a directory (a file there is a collision; a missing entry becomes a
/// fresh directory), and the final component becomes a file, overwriting
/// whatever held that name.
pub open spec fn insert_path_model(m: Map<Seq<u8>, ItemModel>, comps: Seq<Seq<u8>>) -> Result<
    Map<Seq<u8>, ItemModel>,
    TreeErrorModel,
>
    decreases comps.len(),
{
    if comps.len() == 0 {
        Ok(m)
    } else if comps.len() == 1 {
        Ok(m.insert(comps[0], ItemModel::File))
    } else {
        let name = comps[0];
        let sub = if m.contains_key(name) {
            m[name]
        } else {
            ItemModel::Dir(Map::empty())
        };
        match sub {
            ItemModel::File => Err(TreeErrorModel::NameCollision { name }),
            ItemModel::Dir(subm) => match insert_path_model(subm, comps.drop_first()) {
                Ok(s2) => Ok(m.insert(name, ItemModel::Dir(s2))),
                Err(e) => Err(e),
            },
        }
    }
}

/// The directory map got from inserting each of `paths`, in order, into `m`;
/// the first collision wins.
pub open spec fn build_from(m: Map<Seq<u8>, ItemModel>, paths: Seq<Seq<Seq<u8>>>) -> Result<
    Map<Seq<u8>, ItemModel>,
    TreeErrorModel,
>
    decreases paths.len(),
{
    if paths.len() == 0 {
        Ok(m)
    } else {
        match build_from(m, paths.drop_last()) {
            Ok(m2) => insert_path_model(m2, paths.last()),
            Err(e) => Err(e),
        }
    }
}

/// The directory map rebuilt from a sequence of paths, inserted in order;
/// the first collision wins.
pub open spec fn build_model(paths: Seq<Seq<Seq<u8>>>) -> Result<
    Map<Seq<u8>, ItemModel>,
    TreeErrorModel,
> {
    build_from(Map::empty(), paths)
}

/// The component sequences of a sequence of handles.
pub open spec fn paths_components(ps: Seq<ReversePath>) -> Seq<Seq<Seq<u8>>> {
    ps.map_values(|p: ReversePath| p.components())
}

/// Inserts the path `comps[i..]` into `dir`, creating ancestor directories
/// as needed and putting a file at the final component.
fn build_file_tree(dir: Directory, comps: &Vec<Vec<u8>>, i: usize) -> (r: Result<
    Directory,
    TreeError,
>)
    requires
        i < comps@.len(),
        dir.wf(),
    ensures
        match r {
            Ok(d2) => insert_path_model(dir.model(), comps.deep_view().skip(i as int)) == Ok::<
                Map<Seq<u8>, ItemModel>,
                TreeErrorModel,
            >(d2.model()) && d2.wf(),
            Err(e) => insert_path_model(dir.model(), comps.deep_view().skip(i as int)) == Err::<
                Map<Seq<u8>, ItemModel>,
                TreeErrorModel,
            >(e.model()),
        },
    decreases comps@.len() - i,
{
    let mut dir = dir;
    let ghost cs = comps.deep_view().skip(i as int);
    proof {
        assert(cs.len() == comps@.len() - i);
        assert(cs[0] == comps.deep_view()[i as int]);
        assert(comps.deep_view()[i as int] == comps@[i as int]@);
    }
    let name = &comps[i];
    let is_last = comps.len() - i == 1;
    proof {
        lemma_entries_model_dom(dir.entries());
    }
    match dir.index_of(name) {
        Some(j) => {
            proof {
                assert(dir.entries()[j as int].0@ == name@);
                assert(entries_model(dir.entries()).contains_key(name@));
                lemma_entries_model_value(dir.entries(), j as int);
            }
            let ghost entries0 = dir.entries();
            let (n, item) = dir.remove_entry(j);
            proof {
                assert(entries0[j as int].1.model() == entries_model(entries0)[name@]);
            }
            if is_last {
                proof {
                    assert(n@ == name@);
                    lemma_entries_model_update(entries0, j as int, (n, FileSystemItem::File));
                }
                dir.insert_entry(j, n, FileSystemItem::File);
                proof {
                    assert(dir.entries() =~= entries0.update(j as int, (n, FileSystemItem::File)));
                    assert(dir.wf()) by {
                        assert(forall|t: int|
                            0 <= t < dir.entries().len() ==> dir.entries()[t].0
                                == entries0[t].0);
                        assert(forall|t: int|
                            0 <= t < dir.entries().len() && t != j ==> (
                            #[trigger] dir.entries()[t].1) == entries0[t].1);
                    }
                }
                Ok(dir)
            } else {
                match item {
                    FileSystemItem::File => {
                        proof {
                            assert(entries_model(entries0)[name@] == ItemModel::File);
                        }
                        Err(TreeError::NameCollision { name: name.clone() })
                    },
                    FileSystemItem::Directory(sub) => {
                        proof {
                            assert(entries0[j as int].1 == FileSystemItem::Directory(sub));
                            assert(entries0[j as int].1.wf());
                            assert(sub.wf());
                            assert(cs.drop_first() =~= comps.deep_view().skip(i as int + 1));
                        }
                        match build_file_tree(sub, comps, i + 1) {
                            Ok(sub2) => {
                                proof {
                                    lemma_entries_model_update(
                                        entries0,
                                        j as int,
                                        (n, FileSystemItem::Directory(sub2)),
                                    );
                                }
                                dir.insert_entry(j, n, FileSystemItem::Directory(sub2));
                                proof {
                                    assert(dir.entries() =~= entries0.update(
                                        j as int,
                                        (n, FileSystemItem::Directory(sub2)),
                                    ));
                                    assert(dir.wf()) by {
                                        assert(forall|t: int|
                                            0 <= t < dir.entries().len() ==> dir.entries()[t].0
                                                == entries0[t].0);
                                        assert(forall|t: int|
                                            0 <= t < dir.entries().len() && t != j ==> (
                                            #[trigger] dir.entries()[t].1) == entries0[t].1);
                                    }
                                }
                                Ok(dir)
                            },
                            Err(e) => Err(e),
                        }
                    },
                }
            }
        },
        None => {
            proof {
                assert(!entries_model(dir.entries()).contains_key(name@));
            }
            if is_last {
                let own = name.clone();
                proof {
                    assert(own@ =~= name@);
                    lemma_entries_model_push(dir.entries(), (own, FileSystemItem::File));
                }
                let ghost entries0 = dir.entries();
                dir.push_entry(own, FileSystemItem::File);
                proof {
                    assert(dir.wf()) by {
                        assert(forall|t: int|
                            0 <= t < entries0.len() ==> dir.entries()[t] == entries0[t]);
                    }
                }
                Ok(dir)
            } else {
                proof {
                    assert(cs.drop_first() =~= comps.deep_view().skip(i as int + 1));
                }
                let empty = Directory::new();
                match build_file_tree(empty, comps, i + 1) {
                    Ok(sub2) => {
                        let own = name.clone();
                        proof {
                            assert(own@ =~= name@);
                            lemma_entries_model_push(
                                dir.entries(),
                                (own, FileSystemItem::Directory(sub2)),
                            );
                        }
                        let ghost entries0 = dir.entries();
                        dir.push_entry(own, FileSystemItem::Directory(sub2));
                        proof {
                            assert(dir.wf()) by {
                                assert(forall|t: int|
                                    0 <= t < entries0.len() ==> dir.entries()[t] == entries0[t]);
                            }
                        }
                        Ok(dir)
                    },
                    Err(e) => Err(e),
                }
            }
        },
    }
}

/// Rebuilds the minimal directory tree containing every handle's path,
/// inserting the handles in order. The result is exactly what repeated map
/// insertion gives: duplicate leaves collapse, and a handle whose path runs
/// through an existing file is a naming collision.
pub fn reverse_file_paths(paths: &Vec<ReversePath>) -> (r: Result<Directory, TreeError>)
    ensures
        match r {
            Ok(d) => build_model(paths_components(paths@)) == Ok::<
                Map<Seq<u8>, ItemModel>,
                TreeErrorModel,
            >(d.model()) && d.wf(),
            Err(e) => build_model(paths_components(paths@)) == Err::<
                Map<Seq<u8>, ItemModel>,
                TreeErrorModel,
            >(e.model()),
        },
{
    let ghost pc = paths_components(paths@);
    let mut dir = Directory::new();
    let n = paths.len();
    let mut i: usize = 0;
    while i < n
        invariant
            i <= n,
            n == paths@.len(),
            pc == paths_components(paths@),
            dir.wf(),
            build_model(pc.subrange(0, i as int)) == Ok::<
                Map<Seq<u8>, ItemModel>,
                TreeErrorModel,
            >(dir.model()),
        decreases n - i,
    {
        let comps = paths[i].path();
        proof {
            assert(pc.subrange(0, i as int + 1).drop_last() =~= pc.subrange(0, i as int));
            assert(pc.subrange(0, i as int + 1).last() == pc[i as int]);
            assert(pc[i as int] == paths@[i as int].components());
            assert(comps.deep_view().skip(0) =~= comps.deep_view());
        }
        match build_file_tree(dir, &comps, 0) {
            Ok(d2) => {
                dir = d2;
            },
            Err(e) => {
                proof {
                    lemma_build_from_err_prefix(Map::empty(), pc, i as int + 1);
                }
                return Err(e);
            },
        }
        i = i + 1;
    }
    proof {
        assert(pc.subrange(0, n as int) =~= pc);
    }
    Ok(dir)
}

/// A collision among the first `k` paths decides the whole rebuild.
proof fn lemma_build_from_err_prefix(m: Map<Seq<u8>, ItemModel>, paths: Seq<Seq<Seq<u8>>>, k: int)
    requires
        0 <= k <= paths.len(),
        build_from(m, paths.subrange(0, k)) is Err,
    ensures
        build_from(m, paths) == build_from(m, paths.subrange(0, k)),
    decreases paths.len() - k,
{
    if k == paths.len() {
        assert(paths.subrange(0, k) =~= paths);
    } else {
        assert(paths.subrange(0, k + 1).drop_last() =~= paths.subrange(0, k));
        lemma_build_from_err_prefix(m, paths, k + 1);
    }
}

/// Each path of `ps`, prefixed by one leading component.
pub open spec fn prefixed(n: Seq<u8>, ps: Seq<Seq<Seq<u8>>>) -> Seq<Seq<Seq<u8>>> {
    ps.map_values(|p: Seq<Seq<u8>>| seq![n] + p)
}

/// Each path of `ps` without its leading component.
pub open spec fn tails(ps: Seq<Seq<Seq<u8>>>) -> Seq<Seq<Seq<u8>>> {
    ps.map_values(|p: Seq<Seq<u8>>| p.drop_first())
}

/// The leaf paths of one subtree, relative to the directory that holds it:
/// a file is one empty path, prefixed by its own name at the level above; a
/// directory contributes its entries' leaves in entry order, each prefixed
/// by the entry's name.
pub open spec fn leaves_of(item: FileSystemItem) -> Seq<Seq<Seq<u8>>>
    decreases item,
{
    match item {
        FileSystemItem::File => seq![Seq::empty()],
        FileSystemItem::Directory(d) => leaves_of_entries(d.entries()),
    }
}

/// The concatenated leaf paths of a directory's entries.
pub open spec fn leaves_of_entries(s: Seq<(Vec<u8>, FileSystemItem)>) -> Seq<Seq<Seq<u8>>>
    decreases s,
{
    if s.len() == 0 {
        Seq::empty()
    } else {
        leaves_of_entries(s.drop_last()) + prefixed(s.last().0@, leaves_of(s.last().1))
    }
}

/// Building from a concatenation is building from the first part, then from
/// the second.
proof fn lemma_build_from_add(
    m: Map<Seq<u8>, ItemModel>,
    a: Seq<Seq<Seq<u8>>>,
    b: Seq<Seq<Seq<u8>>>,
)
    ensures
        build_from(m, a) matches Ok(m2) ==> build_from(m, a + b) == build_from(m2, b),
        build_from(m, a) is Err ==> build_from(m, a + b) == build_from(m, a),
    decreases b.len(),
{
    if b.len() == 0 {
        assert(a + b =~= a);
    } else {
        assert((a + b).drop_last() =~= a + b.drop_last());
        assert((a + b).last() == b.last());
        lemma_build_from_add(m, a, b.drop_last());
    }
}

/// A populated subtree has at least one leaf.
proof fn lemma_filled_has_leaves(item: FileSystemItem)
    requires
        all_dirs_filled(item),
    ensures
        leaves_of(item).len() >= 1,
    decreases item,
{
    match item {
        FileSystemItem::File => {},
        FileSystemItem::Directory(d) => {
            let s = d.entries();
            assert(all_dirs_filled(s[s.len() - 1].1));
            assert(decreases_to!(item => item->Directory_0));
            assert(decreases_to!(d => d.content));
            assert(decreases_to!(d.content => d.content@));
            assert(decreases_to!(d.content@ => d.content@[s.len() - 1]));
            assert(decreases_to!(s[s.len() - 1] => s[s.len() - 1].1));
            lemma_filled_has_leaves(s.last().1);
        },
    }
}

/// Every leaf path of a directory's entries has at least one component.
proof fn lemma_leaf_paths_nonempty(s: Seq<(Vec<u8>, FileSystemItem)>)
    ensures
        forall|k: int|
            0 <= k < leaves_of_entries(s).len() ==> (#[trigger] leaves_of_entries(s)[k]).len()
                >= 1,
    decreases s.len(),
{
    if s.len() > 0 {
        lemma_leaf_paths_nonempty(s.drop_last());
        let left = leaves_of_entries(s.drop_last());
        let right = prefixed(s.last().0@, leaves_of(s.last().1));
        assert forall|k: int|
            0 <= k < leaves_of_entries(s).len() implies (#[trigger] leaves_of_entries(s)[k]).len()
            >= 1 by {
            if k < left.len() {
                assert(leaves_of_entries(s)[k] == left[k]);
            } else {
                assert(leaves_of_entries(s)[k] == right[k - left.len()]);
                assert(right[k - left.len()] == seq![s.last().0@] + leaves_of(s.last().1)[k
                    - left.len()]);
            }
        }
    }
}

/// Inserting paths that all descend through one directory entry `c` builds
/// that entry's subtree from the paths' tails and leaves the rest of the
/// map alone.
proof fn lemma_build_descend(
    m: Map<Seq<u8>, ItemModel>,
    c: Seq<u8>,
    ps: Seq<Seq<Seq<u8>>>,
    sub: Map<Seq<u8>, ItemModel>,
)
    requires
        ps.len() >= 1,
        forall|k: int| 0 <= k < ps.len() ==> (#[trigger] ps[k]).len() >= 2 && ps[k][0] == c,
        (!m.contains_key(c) && sub == Map::<Seq<u8>, ItemModel>::empty()) || (m.contains_key(c)
            && m[c] == ItemModel::Dir(sub)),
    ensures
        build_from(sub, tails(ps)) matches Ok(t) ==> build_from(m, ps) == Ok::<
            Map<Seq<u8>, ItemModel>,
            TreeErrorModel,
        >(m.insert(c, ItemModel::Dir(t))),
        build_from(sub, tails(ps)) matches Err(e) ==> build_from(m, ps) == Err::<
            Map<Seq<u8>, ItemModel>,
            TreeErrorModel,
        >(e),
    decreases ps.len(),
{
    if ps.len() == 1 {
        let p = ps[0];
        assert(ps.drop_last() =~= Seq::<Seq<Seq<u8>>>::empty());
        assert(tails(ps).drop_last() =~= Seq::<Seq<Seq<u8>>>::empty());
        assert(tails(ps).last() == p.drop_first());
        assert(build_from(m, ps.drop_last()) == Ok::<Map<Seq<u8>, ItemModel>, TreeErrorModel>(m));
        assert(build_from(m, ps) == insert_path_model(m, p));
        assert(build_from(sub, tails(ps).drop_last()) == Ok::<
            Map<Seq<u8>, ItemModel>,
            TreeErrorModel,
        >(sub));
        assert(build_from(sub, tails(ps)) == insert_path_model(sub, p.drop_first()));
    } else {
        assert(ps.drop_last()[0] == ps[0]);
        lemma_build_descend(m, c, ps.drop_last(), sub);
        assert(tails(ps).drop_last() =~= tails(ps.drop_last()));
        assert(tails(ps).last() == ps.last().drop_first());
        match build_from(sub, tails(ps.drop_last())) {
            Ok(t0) => {
                let mid = m.insert(c, ItemModel::Dir(t0));
                assert(build_from(m, ps.drop_last()) == Ok::<
                    Map<Seq<u8>, ItemModel>,
                    TreeErrorModel,
                >(mid));
                let p = ps.last();
                assert(p.len() >= 2 && p[0] == c);
                assert(mid.contains_key(c) && mid[c] == ItemModel::Dir(t0));
                match insert_path_model(t0, p.drop_first()) {
                    Ok(s2) => {
                        assert(mid.insert(c, ItemModel::Dir(s2)) =~= m.insert(
                            c,
                            ItemModel::Dir(s2),
                        ));
                    },
                    Err(_) => {},
                }
            },
            Err(_) => {},
        }
    }
}

/// Rebuilding from the leaves of well-formed, populated entries adds
/// exactly those entries to the accumulated map; no collision can arise.
proof fn lemma_rebuild_entries(s: Seq<(Vec<u8>, FileSystemItem)>, m: Map<Seq<u8>, ItemModel>)
    requires
        forall|i: int, k: int|
            #![trigger s[i].0, s[k].0]
            0 <= i < k < s.len() ==> s[i].0@ != s[k].0@,
        forall|i: int|
            0 <= i < s.len() ==> (#[trigger] s[i].1).wf() && all_dirs_filled(s[i].1),
        forall|i: int| 0 <= i < s.len() ==> !m.contains_key(#[trigger] s[i].0@),
    ensures
        build_from(m, leaves_of_entries(s)) == Ok::<Map<Seq<u8>, ItemModel>, TreeErrorModel>(
            m.union_prefer_right(entries_model(s)),
        ),
    decreases s,
{
    if s.len() == 0 {
        assert(m.union_prefer_right(entries_model(s)) =~= m);
    } else {
        let s0 = s.drop_last();
        let n = s.last().0@;
        let item = s.last().1;
        assert(forall|i: int| 0 <= i < s0.len() ==> s0[i] == s[i]);
        lemma_rebuild_entries(s0, m);
        let m1 = m.union_prefer_right(entries_model(s0));
        let left = leaves_of_entries(s0);
        let group = prefixed(n, leaves_of(item));
        lemma_build_from_add(m, left, group);
        assert(s[s.len() - 1].1 == item);
        assert(s[s.len() - 1].1.wf() && all_dirs_filled(item));
        lemma_entries_model_dom(s0);
        assert(!entries_model(s0).contains_key(n)) by {
            if entries_model(s0).contains_key(n) {
                let i = choose|i: int| 0 <= i < s0.len() && s0[i].0@ == n;
                assert(s[i].0@ == s[s.len() - 1].0@);
            }
        }
        assert(!m.contains_key(n));
        assert(!m1.contains_key(n));
        match item {
            FileSystemItem::File => {
                assert(group =~= seq![seq![n]]) by {
                    assert(group.len() == 1);
                    assert(group[0] == seq![n] + Seq::<Seq<u8>>::empty());
                    assert(seq![n] + Seq::<Seq<u8>>::empty() =~= seq![n]);
                }
                assert(group.drop_last() =~= Seq::<Seq<Seq<u8>>>::empty());
                assert(build_from(m1, group.drop_last()) == Ok::<
                    Map<Seq<u8>, ItemModel>,
                    TreeErrorModel,
                >(m1));
                assert(build_from(m1, group) == insert_path_model(m1, seq![n]));
                assert(m1.insert(n, ItemModel::File) =~= m.union_prefer_right(
                    entries_model(s),
                ));
            },
            FileSystemItem::Directory(d) => {
                assert(decreases_to!(s => s[s.len() - 1]));
                assert(decreases_to!(s[s.len() - 1] => s[s.len() - 1].1));
                assert(decreases_to!(item => item->Directory_0));
                assert(decreases_to!(d => d.content));
                assert(decreases_to!(d.content => d.content@));
                let ds = d.entries();
                assert(d.wf());
                assert(all_dirs_filled(item));
                assert(ds.len() > 0);
                assert(forall|i: int|
                    0 <= i < ds.len() ==> (#[trigger] ds[i].1).wf() && all_dirs_filled(ds[i].1));
                lemma_rebuild_entries(ds, Map::empty());
                assert(Map::<Seq<u8>, ItemModel>::empty().union_prefer_right(entries_model(ds))
                    =~= entries_model(ds));
                lemma_filled_has_leaves(item);
                assert(group.len() >= 1);
                lemma_leaf_paths_nonempty(ds);
                assert(forall|k: int|
                    0 <= k < group.len() ==> (#[trigger] group[k]).len() >= 2 && group[k][0]
                        == n) by {
                    assert(forall|k: int|
                        0 <= k < group.len() ==> #[trigger] group[k] == seq![n] + leaves_of(
                            item,
                        )[k]);
                }
                assert(tails(group) =~= leaves_of_entries(ds)) by {
                    assert(forall|k: int|
                        0 <= k < group.len() ==> #[trigger] tails(group)[k] == (seq![n]
                            + leaves_of(item)[k]).drop_first());
                    assert(forall|k: int|
                        0 <= k < group.len() ==> (seq![n] + (#[trigger] leaves_of(item)[k]))
                            .drop_first() =~= leaves_of(item)[k]);
                }
                lemma_build_descend(m1, n, group, Map::empty());
                assert(build_from(m1, group) == Ok::<Map<Seq<u8>, ItemModel>, TreeErrorModel>(
                    m1.insert(n, ItemModel::Dir(entries_model(ds))),
                ));
                assert(item.model() == ItemModel::Dir(entries_model(ds)));
                assert(m1.insert(n, item.model()) =~= m.union_prefer_right(entries_model(s)));
            },
        }
    }
}

/// Round trip: rebuilding from the full leaf set of a well-formed tree in
/// which every directory is populated yields exactly that tree, with no
/// collision.
pub proof fn lemma_round_trip(d: Directory)
    requires
        d.wf(),
        forall|i: int|
            0 <= i < d.entries().len() ==> all_dirs_filled(#[trigger] d.entries()[i].1),
    ensures
        build_model(leaves_of_entries(d.entries())) == Ok::<
            Map<Seq<u8>, ItemModel>,
            TreeErrorModel,
        >(d.model()),
{
    lemma_rebuild_entries(d.entries(), Map::empty());
    assert(Map::<Seq<u8>, ItemModel>::empty().union_prefer_right(entries_model(d.entries()))
        =~= entries_model(d.entries()));
}

/// The components a leaf handle under `prefix` starts from: the prefix's
/// own components, or none at the root.
pub open spec fn opt_components(p: Option<&ReversePath>) -> Seq<Seq<u8>> {
    match p {
        Some(q) => q.components(),
        None => Seq::empty(),
    }
}

/// Each path of `ps` behind a full path prefix.
pub open spec fn under(at: Seq<Seq<u8>>, ps: Seq<Seq<Seq<u8>>>) -> Seq<Seq<Seq<u8>>> {
    ps.map_values(|p: Seq<Seq<u8>>| at + p)
}

/// Appends one handle per file below `d` to `out`, in entry order, each
/// sharing `prefix`'s chain.
fn collect_leaves(d: &Directory, prefix: Option<&ReversePath>, out: &mut Vec<ReversePath>)
    ensures
        paths_components(final(out)@) == paths_components(old(out)@) + under(
            opt_components(prefix),
            leaves_of_entries(d.entries()),
        ),
    decreases *d,
{
    let ghost at = opt_components(prefix);
    let ghost out0 = out@;
    let n = d.content.len();
    let mut i: usize = 0;
    proof {
        assert(paths_components(out@) =~= paths_components(out0) + under(
            at,
            leaves_of_entries(d.entries().subrange(0, 0)),
        ));
    }
    while i < n
        invariant
            i <= n,
            n == d.entries().len(),
            at == opt_components(prefix),
            paths_components(out@) == paths_components(out0) + under(
                at,
                leaves_of_entries(d.entries().subrange(0, i as int)),
            ),
        decreases n - i,
    {
        let entry = &d.content[i];
        let handle = match prefix {
            None => ReversePath::new(&entry.0),
            Some(p) => ReversePath::new_from_prefix(p, &entry.0),
        };
        proof {
            assert(handle.components() =~= at.push(entry.0@));
        }
        let ghost sub_entries = d.entries().subrange(0, i as int);
        let ghost sub_entries1 = d.entries().subrange(0, i as int + 1);
        proof {
            assert(sub_entries1.drop_last() =~= sub_entries);
            assert(sub_entries1.last() == d.entries()[i as int]);
        }
        match &entry.1 {
            FileSystemItem::File => {
                let ghost before = out@;
                out.push(handle);
                proof {
                    assert(paths_components(out@) =~= paths_components(before).push(
                        at.push(entry.0@),
                    ));
                    lemma_under_group(at, entry.0@, leaves_of(d.entries()[i as int].1));
                    assert(leaves_of(d.entries()[i as int].1) == seq![Seq::<Seq<u8>>::empty()]);
                    assert(under(at.push(entry.0@), seq![Seq::<Seq<u8>>::empty()]) =~= seq![
                        at.push(entry.0@),
                    ]) by {
                        assert(under(at.push(entry.0@), seq![Seq::<Seq<u8>>::empty()])[0]
                            == at.push(entry.0@) + Seq::<Seq<u8>>::empty());
                        assert(at.push(entry.0@) + Seq::<Seq<u8>>::empty() =~= at.push(entry.0@));
                    }
                    assert(paths_components(out@) =~= paths_components(out0) + under(
                        at,
                        leaves_of_entries(sub_entries1),
                    ));
                }
            },
            FileSystemItem::Directory(sub) => {
                proof {
                    assert(*d == Directory { content: d.content });
                    assert(decreases_to!(*d => d.content));
                    assert(decreases_to!(d.content => d.content@));
                    assert(decreases_to!(d.content@ => d.content@[i as int]));
                    assert(decreases_to!(d.content@[i as int] => d.content@[i as int].1));
                    assert(d.content@[i as int].1 == entry.1);
                    assert(decreases_to!(entry.1 => *sub));
                }
                let ghost before = out@;
                collect_leaves(sub, Some(&handle), out);
                proof {
                    lemma_under_group(at, entry.0@, leaves_of(d.entries()[i as int].1));
                    assert(paths_components(out@) =~= paths_components(out0) + under(
                        at,
                        leaves_of_entries(sub_entries1),
                    ));
                }
            },
        }
        i = i + 1;
    }
    proof {
        assert(d.entries().subrange(0, n as int) =~= d.entries());
    }
}

/// Prefixing by a path and then one component is prefixing by the longer
/// path; and prefixing distributes over concatenation.
proof fn lemma_under_group(at: Seq<Seq<u8>>, n: Seq<u8>, ps: Seq<Seq<Seq<u8>>>)
    ensures
        under(at, prefixed(n, ps)) =~= under(at.push(n), ps),
        forall|a: Seq<Seq<Seq<u8>>>, b: Seq<Seq<Seq<u8>>>|
            #[trigger] under(at, a + b) =~= under(at, a) + under(at, b),
{
    assert forall|k: int|
        0 <= k < ps.len() implies #[trigger] under(at, prefixed(n, ps))[k] == under(
        at.push(n),
        ps,
    )[k] by {
        assert(under(at, prefixed(n, ps))[k] == at + (seq![n] + ps[k]));
        assert(under(at.push(n), ps)[k] == at.push(n) + ps[k]);
        assert(at + (seq![n] + ps[k]) =~= at.push(n) + ps[k]);
    }
    assert forall|a: Seq<Seq<Seq<u8>>>, b: Seq<Seq<Seq<u8>>>| #[trigger]
        under(at, a + b) =~= under(at, a) + under(at, b) by {
        assert forall|k: int|
            0 <= k < a.len() + b.len() implies #[trigger] under(at, a + b)[k] == (under(at, a)
            + under(at, b))[k] by {
            if k < a.len() {
                assert((a + b)[k] == a[k]);
            } else {
                assert((a + b)[k] == b[k - a.len()]);
            }
        }
    }
}

/// One handle per file below `dir`, in entry order; handles under a common
/// directory share that directory's chain. Rebuilding from exactly these
/// handles restores `dir` when it is well-formed and populated.
pub fn leaf_handles(dir: &Directory) -> (r: Vec<ReversePath>)
    ensures
        paths_components(r@) == leaves_of_entries(dir.entries()),
{
    let mut out: Vec<ReversePath> = Vec::new();
    collect_leaves(dir, None, &mut out);
    proof {
        assert(paths_components(out@) =~= under(
            Seq::empty(),
            leaves_of_entries(dir.entries()),
        ));
        assert forall|k: int|
            0 <= k < leaves_of_entries(dir.entries()).len() implies #[trigger] under(
            Seq::empty(),
            leaves_of_entries(dir.entries()),
        )[k] == leaves_of_entries(dir.entries())[k] by {
            assert(Seq::<Seq<u8>>::empty() + leaves_of_entries(dir.entries())[k]
                =~= leaves_of_entries(dir.entries())[k]);
        }
        assert(paths_components(out@) =~= leaves_of_entries(dir.entries()));
    }
    out
}

} // verus!
