//! The scanner: turns one raw directory listing, as the filesystem reported
//! it, into the filtered tree model. A file is kept when its extension,
//! lowercased, is one of the caller's extensions; a directory is kept when
//! something below it is kept; a directory whose listing was refused for
//! lack of permission is treated as having no content; any other failure is
//! fatal to the whole scan.

use vstd::prelude::*;

use crate::tree::Directory;
use crate::tree::FileSystemItem;
use crate::tree::ItemModel;
use crate::tree::TreeError;
use crate::tree::TreeErrorModel;
use crate::tree::all_dirs_filled;
use crate::tree::bytes_eq;
use crate::tree::lemma_entries_model_dom;
use crate::tree::lemma_entries_model_push;

verus! {

/// What one attempt to list a real directory produced.
#[derive(Debug)]
pub enum RawListing {
    /// The listing was refused for lack of permission.
    Denied,
    /// The listing itself failed fatally; the message describes the failure.
    Failed { message: String },
    /// The entries, in the order the listing produced them.
    Entries(Vec<RawEntry>),
}

/// One directory entry as the filesystem reported it.
#[derive(Debug)]
pub enum RawEntry {
    /// A regular file.
    File { name: Vec<u8> },
    /// A subdirectory, together with what listing it produced.
    Dir { name: Vec<u8>, listing: RawListing },
    /// An entry of any other kind (device, socket, ...): always skipped.
    Other { name: Vec<u8> },
    /// Reading this entry or its type failed; fatal to the whole scan.
    Error { message: String },
}

/// The position of the last `.` in `name`, or -1 if there is none.
pub open spec fn last_dot(name: Seq<u8>) -> int
    decreases name.len(),
{
    if name.len() == 0 {
        -1
    } else if name.last() == 46u8 {
        name.len() - 1
    } else {
        last_dot(name.drop_last())
    }
}

/// The extension of a file name: what follows the final `.`, unless the
/// name has no `.` past its first byte (so names that only begin with a
/// dot have no extension).
pub open spec fn extension_of(name: Seq<u8>) -> Option<Seq<u8>> {
    let d = last_dot(name);
    if d > 0 {
        Some(name.subrange(d + 1, name.len() as int))
    } else {
        None
    }
}

/// ASCII lowercasing of one byte.
pub open spec fn lower_byte(b: u8) -> u8 {
    if 65 <= b && b <= 90 {
        (b + 32) as u8
    } else {
        b
    }
}

/// ASCII lowercasing of a byte string.
pub open spec fn lower_bytes(s: Seq<u8>) -> Seq<u8> {
    s.map_values(|b: u8| lower_byte(b))
}

/// The scanner's predicate: the name has an extension and, lowercased, it
/// is one of `exts`.
pub open spec fn name_matches(name: Seq<u8>, exts: Seq<Seq<u8>>) -> bool {
    match extension_of(name) {
        Some(e) => exts.contains(lower_bytes(e)),
        None => false,
    }
}

/// Whether `name`'s extension, lowercased, is one of `extensions`.
pub fn name_has_matching_extension(name: &Vec<u8>, extensions: &Vec<Vec<u8>>) -> (r: bool)
    ensures
        r == name_matches(name@, extensions.deep_view()),
{
    let n = name.len();
    let mut i: usize = n;
    proof {
        assert(name@.subrange(0, n as int) =~= name@);
    }
    while i > 0 && name[i - 1] != 46u8
        invariant
            i <= n,
            n == name@.len(),
            last_dot(name@) == last_dot(name@.subrange(0, i as int)),
        decreases i,
    {
        proof {
            let pre = name@.subrange(0, i as int);
            assert(pre.last() == name@[i - 1]);
            assert(pre.drop_last() =~= name@.subrange(0, i - 1));
        }
        i = i - 1;
    }
    if i <= 1 {
        proof {
            if i == 1 {
                let pre = name@.subrange(0, 1);
                assert(pre.last() == name@[0]);
                assert(pre.drop_last() =~= name@.subrange(0, 0));
            }
            assert(last_dot(name@) <= 0);
        }
        return false;
    }
    // The last dot sits at i - 1 > 0; the extension follows it.
    let d = i - 1;
    proof {
        let pre = name@.subrange(0, i as int);
        assert(pre.last() == name@[d as int]);
        assert(last_dot(name@) == d);
    }
    let mut lowered: Vec<u8> = Vec::new();
    let mut j: usize = d + 1;
    while j < n
        invariant
            d + 1 <= j <= n,
            n == name@.len(),
            lowered@.len() == j - d - 1,
            forall|k: int| 0 <= k < lowered@.len() ==> lowered@[k] == lower_byte(
                name@[d + 1 + k],
            ),
        decreases n - j,
    {
        let b = name[j];
        let low: u8 = if 65 <= b && b <= 90 {
            b + 32
        } else {
            b
        };
        lowered.push(low);
        j = j + 1;
    }
    proof {
        let ext = name@.subrange(d + 1, n as int);
        assert(lowered@ =~= lower_bytes(ext));
    }
    // Membership of the lowered extension in the extension set.
    let m = extensions.len();
    let mut k: usize = 0;
    while k < m
        invariant
            k <= m,
            m == extensions@.len(),
            lowered@ == lower_bytes(name@.subrange(last_dot(name@) + 1, name@.len() as int)),
            extension_of(name@) == Some(name@.subrange(last_dot(name@) + 1, name@.len() as int)),
            forall|t: int| 0 <= t < k ==> extensions.deep_view()[t] != lowered@,
        decreases m - k,
    {
        if bytes_eq(&extensions[k], &lowered) {
            proof {
                assert(extensions.deep_view()[k as int] == extensions@[k as int]@);
                assert(extensions.deep_view().contains(lowered@));
            }
            return true;
        }
        proof {
            assert(extensions.deep_view()[k as int] == extensions@[k as int]@);
        }
        k = k + 1;
    }
    proof {
        assert(!extensions.deep_view().contains(lowered@));
    }
    false
}

/// The result of scanning one listing: the filtered subtree (`None` when
/// nothing below matched or the listing was permission-denied), or the first
/// fatal condition in listing order.
pub open spec fn scan_listing(l: RawListing, exts: Seq<Seq<u8>>) -> Result<
    Option<ItemModel>,
    TreeErrorModel,
>
    decreases l,
{
    match l {
        RawListing::Denied => Ok(None),
        RawListing::Failed { message } => Err(TreeErrorModel::Io { message: message@ }),
        RawListing::Entries(es) => match scan_entries(es@, exts) {
            Ok(m) => if m == Map::<Seq<u8>, ItemModel>::empty() {
                Ok(None)
            } else {
                Ok(Some(ItemModel::Dir(m)))
            },
            Err(e) => Err(e),
        },
    }
}

/// Folds the entries of one directory, in listing order, into the filtered
/// map, stopping at the first fatal condition: an unreadable entry, a fatal
/// subdirectory listing, or a second entry under an already-present name.
pub open spec fn scan_entries(es: Seq<RawEntry>, exts: Seq<Seq<u8>>) -> Result<
    Map<Seq<u8>, ItemModel>,
    TreeErrorModel,
>
    decreases es,
{
    if es.len() == 0 {
        Ok(Map::empty())
    } else {
        match scan_entries(es.drop_last(), exts) {
            Err(e) => Err(e),
            Ok(m) => match es.last() {
                RawEntry::Error { message } => Err(TreeErrorModel::Io { message: message@ }),
                RawEntry::Other { .. } => Ok(m),
                RawEntry::File { name } => if name_matches(name@, exts) {
                    if m.contains_key(name@) {
                        Err(TreeErrorModel::NameCollision { name: name@ })
                    } else {
                        Ok(m.insert(name@, ItemModel::File))
                    }
                } else {
                    Ok(m)
                },
                RawEntry::Dir { name, listing } => match scan_listing(listing, exts) {
                    Err(e) => Err(e),
                    Ok(None) => Ok(m),
                    Ok(Some(sub)) => if m.contains_key(name@) {
                        Err(TreeErrorModel::NameCollision { name: name@ })
                    } else {
                        Ok(m.insert(name@, sub))
                    },
                },
            },
        }
    }
}

/// A fatal condition among the first `k` entries decides the whole fold.
proof fn lemma_scan_entries_err_prefix(es: Seq<RawEntry>, exts: Seq<Seq<u8>>, k: int)
    requires
        0 <= k <= es.len(),
        scan_entries(es.subrange(0, k), exts) is Err,
    ensures
        scan_entries(es, exts) == scan_entries(es.subrange(0, k), exts),
    decreases es.len() - k,
{
    if k == es.len() {
        assert(es.subrange(0, k) =~= es);
    } else {
        assert(es.subrange(0, k + 1).drop_last() =~= es.subrange(0, k));
        lemma_scan_entries_err_prefix(es, exts, k + 1);
    }
}

/// Scans one raw listing, keeping the files whose lowercased extension is
/// one of `extensions` and the directories holding at least one such file.
/// The result is exactly the model `scan_listing` describes: `Ok(None)` when
/// nothing matched or the listing was permission-denied, the filtered tree
/// otherwise, and the first fatal condition as an error.
pub fn retrieve_files_recursively(listing: &RawListing, extensions: &Vec<Vec<u8>>) -> (r: Result<
    Option<FileSystemItem>,
    TreeError,
>)
    ensures
        match r {
            Ok(Some(item)) => scan_listing(*listing, extensions.deep_view()) == Ok::<
                Option<ItemModel>,
                TreeErrorModel,
            >(Some(item.model())) && item.wf() && all_dirs_filled(item) && item is Directory,
            Ok(None) => scan_listing(*listing, extensions.deep_view()) == Ok::<
                Option<ItemModel>,
                TreeErrorModel,
            >(None),
            Err(e) => scan_listing(*listing, extensions.deep_view()) == Err::<
                Option<ItemModel>,
                TreeErrorModel,
            >(e.model()),
        },
    decreases *listing,
{
    let ghost exts = extensions.deep_view();
    match listing {
        RawListing::Denied => Ok(None),
        RawListing::Failed { message } => Err(TreeError::Io { message: message.clone() }),
        RawListing::Entries(es) => {
            let mut dir = Directory::new();
            let n = es.len();
            let mut i: usize = 0;
            while i < n
                invariant
                    i <= n,
                    n == es@.len(),
                    *listing == RawListing::Entries(*es),
                    exts == extensions.deep_view(),
                    dir.wf(),
                    forall|k: int| 0 <= k < dir.entries().len() ==> all_dirs_filled(
                        #[trigger] dir.entries()[k].1,
                    ),
                    scan_entries(es@.subrange(0, i as int), exts) == Ok::<
                        Map<Seq<u8>, ItemModel>,
                        TreeErrorModel,
                    >(dir.model()),
                decreases n - i,
            {
                let ghost prefix = es@.subrange(0, i as int);
                let ghost prefix1 = es@.subrange(0, i as int + 1);
                proof {
                    assert(prefix1.drop_last() =~= prefix);
                    assert(prefix1.last() == es@[i as int]);
                }
                match &es[i] {
                    RawEntry::Error { message } => {
                        proof {
                            lemma_scan_entries_err_prefix(es@, exts, i as int + 1);
                        }
                        return Err(TreeError::Io { message: message.clone() });
                    },
                    RawEntry::Other { .. } => {},
                    RawEntry::File { name } => {
                        if name_has_matching_extension(name, extensions) {
                            proof {
                                lemma_entries_model_dom(dir.entries());
                            }
                            match dir.index_of(name) {
                                Some(j) => {
                                    proof {
                                        assert(dir.entries()[j as int].0@ == name@);
                                        assert(crate::tree::entries_model(dir.entries()).contains_key(name@));
                                        lemma_scan_entries_err_prefix(es@, exts, i as int + 1);
                                    }
                                    return Err(TreeError::NameCollision { name: name.clone() });
                                },
                                None => {
                                    let own = name.clone();
                                    proof {
                                        assert(own@ =~= name@);
                                        lemma_entries_model_push(
                                            dir.entries(),
                                            (own, FileSystemItem::File),
                                        );
                                    }
                                    dir.push_entry(own, FileSystemItem::File);
                                },
                            }
                        }
                    },
                    RawEntry::Dir { name, listing: sub } => {
                        proof {
                            assert(decreases_to!(*listing => *es));
                            assert(decreases_to!(*es => es@));
                            assert(decreases_to!(es@ => es@[i as int]));
                            assert(decreases_to!(es@[i as int] => *sub));
                        }
                        match retrieve_files_recursively(sub, extensions) {
                            Err(e) => {
                                proof {
                                    lemma_scan_entries_err_prefix(es@, exts, i as int + 1);
                                }
                                return Err(e);
                            },
                            Ok(None) => {},
                            Ok(Some(item)) => {
                                proof {
                                    lemma_entries_model_dom(dir.entries());
                                }
                                match dir.index_of(name) {
                                    Some(j) => {
                                        proof {
                                            assert(dir.entries()[j as int].0@ == name@);
                                            assert(crate::tree::entries_model(dir.entries()).contains_key(name@));
                                            lemma_scan_entries_err_prefix(es@, exts, i as int + 1);
                                        }
                                        return Err(
                                            TreeError::NameCollision { name: name.clone() },
                                        );
                                    },
                                    None => {
                                        let own = name.clone();
                                        proof {
                                            assert(own@ =~= name@);
                                            lemma_entries_model_push(dir.entries(), (own, item));
                                        }
                                        dir.push_entry(own, item);
                                    },
                                }
                            },
                        }
                    },
                }
                i = i + 1;
            }
            proof {
                assert(es@.subrange(0, n as int) =~= es@);
            }
            if dir.len() == 0 {
                proof {
                    assert(dir.model() =~= Map::<Seq<u8>, ItemModel>::empty());
                }
                Ok(None)
            } else {
                proof {
                    lemma_entries_model_dom(dir.entries());
                    let n0 = dir.entries()[0].0@;
                    assert(dir.entries()[0].0@ == n0);
                    assert(exists|t: int| 0 <= t < dir.entries().len() && dir.entries()[t].0@ == n0);
                    assert(crate::tree::entries_model(dir.entries()).contains_key(n0));
                    assert(dir.model() != Map::<Seq<u8>, ItemModel>::empty());
                }
                Ok(Some(FileSystemItem::Directory(dir)))
            }
        },
    }
}

/// Whether some file below this listing matches the extension set.
pub open spec fn listing_has_match(l: RawListing, exts: Seq<Seq<u8>>) -> bool
    decreases l,
{
    match l {
        RawListing::Denied => false,
        RawListing::Failed { .. } => false,
        RawListing::Entries(es) => exists|i: int|
            0 <= i < es@.len() && entry_has_match(#[trigger] es@[i], exts),
    }
}

/// Whether this entry is, or holds below it, a matching file.
pub open spec fn entry_has_match(e: RawEntry, exts: Seq<Seq<u8>>) -> bool
    decreases e,
{
    match e {
        RawEntry::File { name } => name_matches(name@, exts),
        RawEntry::Dir { listing, .. } => listing_has_match(listing, exts),
        RawEntry::Other { .. } => false,
        RawEntry::Error { .. } => false,
    }
}

/// Whether a fatal IO failure (a failed listing or an unreadable entry)
/// stands anywhere in this listing. A permission-denied listing is not one.
pub open spec fn listing_has_io_failure(l: RawListing) -> bool
    decreases l,
{
    match l {
        RawListing::Denied => false,
        RawListing::Failed { .. } => true,
        RawListing::Entries(es) => exists|i: int|
            0 <= i < es@.len() && entry_has_io_failure(#[trigger] es@[i]),
    }
}

/// Whether this entry is, or holds below it, a fatal IO failure.
pub open spec fn entry_has_io_failure(e: RawEntry) -> bool
    decreases e,
{
    match e {
        RawEntry::File { .. } => false,
        RawEntry::Dir { listing, .. } => listing_has_io_failure(listing),
        RawEntry::Other { .. } => false,
        RawEntry::Error { .. } => true,
    }
}

/// A fatal IO failure anywhere below forces the whole scan to fail, so the
/// caller never sees a partial tree.
pub proof fn lemma_io_failure_fails_scan(l: RawListing, exts: Seq<Seq<u8>>)
    requires
        listing_has_io_failure(l),
    ensures
        scan_listing(l, exts) is Err,
    decreases l,
{
    match l {
        RawListing::Denied => {},
        RawListing::Failed { .. } => {},
        RawListing::Entries(es) => {
            let i = choose|i: int| 0 <= i < es@.len() && entry_has_io_failure(#[trigger] es@[i]);
            let pre = es@.subrange(0, i);
            let pre1 = es@.subrange(0, i + 1);
            assert(pre1.drop_last() =~= pre);
            assert(pre1.last() == es@[i]);
            if scan_entries(pre, exts) is Err {
                lemma_scan_entries_err_prefix(es@, exts, i);
            } else {
                match es@[i] {
                    RawEntry::Error { .. } => {},
                    RawEntry::Dir { name, listing } => {
                        assert(decreases_to!(l => es));
                        assert(decreases_to!(es => es@));
                        assert(decreases_to!(es@ => es@[i]));
                        assert(decreases_to!(es@[i] => listing));
                        lemma_io_failure_fails_scan(listing, exts);
                    },
                    _ => {
                        assert(false);
                    },
                }
                assert(scan_entries(pre1, exts) is Err);
                lemma_scan_entries_err_prefix(es@, exts, i + 1);
            }
        },
    }
}

/// A subdirectory whose listing was permission-denied contributes nothing:
/// scanning is the same as if the entry were not there at all, and the
/// siblings after it are still scanned.
pub proof fn lemma_denied_like_absent(es: Seq<RawEntry>, exts: Seq<Seq<u8>>, i: int)
    requires
        0 <= i < es.len(),
        es[i] matches RawEntry::Dir { name: _, listing: RawListing::Denied },
    ensures
        scan_entries(es, exts) == scan_entries(es.remove(i), exts),
    decreases es.len(),
{
    if i == es.len() - 1 {
        assert(es.remove(i) =~= es.drop_last());
        assert(es.last() == es[i]);
        assert(es.last() matches RawEntry::Dir { name: _, listing: RawListing::Denied });
        assert(scan_listing(RawListing::Denied, exts) == Ok::<Option<ItemModel>, TreeErrorModel>(
            None,
        ));
        if scan_entries(es.drop_last(), exts) is Err {
        } else {
            assert(scan_entries(es, exts) == scan_entries(es.drop_last(), exts));
        }
    } else {
        assert(es.remove(i).drop_last() =~= es.drop_last().remove(i));
        assert(es.remove(i).last() == es.last());
        assert(es.drop_last()[i] == es[i]);
        lemma_denied_like_absent(es.drop_last(), exts, i);
    }
}

/// The name an entry stands under.
pub open spec fn entry_name(e: RawEntry) -> Seq<u8> {
    match e {
        RawEntry::File { name } => name@,
        RawEntry::Dir { name, .. } => name@,
        RawEntry::Other { name } => name@,
        RawEntry::Error { .. } => Seq::empty(),
    }
}

/// Whether a scan keeps this entry: a file that matches, or a directory
/// with something kept below it.
pub open spec fn entry_kept(e: RawEntry, exts: Seq<Seq<u8>>) -> bool {
    match e {
        RawEntry::File { name } => name_matches(name@, exts),
        RawEntry::Dir { listing, .. } => scan_listing(listing, exts) matches Ok(Some(_)),
        RawEntry::Other { .. } => false,
        RawEntry::Error { .. } => false,
    }
}

/// What a kept entry becomes in the result.
pub open spec fn entry_scanned(e: RawEntry, exts: Seq<Seq<u8>>) -> ItemModel {
    match e {
        RawEntry::Dir { listing, .. } => match scan_listing(listing, exts) {
            Ok(Some(sub)) => sub,
            _ => ItemModel::File,
        },
        _ => ItemModel::File,
    }
}

/// A successful scan of a directory's entries holds exactly the kept
/// entries: every matching file, every subdirectory with a match below,
/// each under its own name with its own scanned value, and nothing else.
pub proof fn lemma_scan_exact(es: Seq<RawEntry>, exts: Seq<Seq<u8>>, m: Map<Seq<u8>, ItemModel>)
    requires
        scan_entries(es, exts) == Ok::<Map<Seq<u8>, ItemModel>, TreeErrorModel>(m),
    ensures
        forall|n: Seq<u8>|
            #[trigger] m.contains_key(n) <==> (exists|i: int|
                0 <= i < es.len() && entry_kept(#[trigger] es[i], exts) && entry_name(es[i]) == n),
        forall|i: int|
            0 <= i < es.len() && entry_kept(#[trigger] es[i], exts) ==> m.contains_key(
                entry_name(es[i]),
            ) && m[entry_name(es[i])] == entry_scanned(es[i], exts),
    decreases es.len(),
{
    if es.len() == 0 {
    } else {
        let prev = scan_entries(es.drop_last(), exts);
        let m0 = prev->Ok_0;
        lemma_scan_exact(es.drop_last(), exts, m0);
        let last = es.last();
        assert forall|n: Seq<u8>| #[trigger]
            m.contains_key(n) implies (exists|i: int|
            0 <= i < es.len() && entry_kept(#[trigger] es[i], exts) && entry_name(es[i])
                == n) by {
            if entry_kept(last, exts) && entry_name(last) == n {
                assert(entry_kept(es[es.len() - 1], exts) && entry_name(es[es.len() - 1]) == n);
            } else {
                assert(m0.contains_key(n));
                let i = choose|i: int|
                    0 <= i < es.drop_last().len() && entry_kept(
                        #[trigger] es.drop_last()[i],
                        exts,
                    ) && entry_name(es.drop_last()[i]) == n;
                assert(es[i] == es.drop_last()[i]);
                assert(entry_kept(es[i], exts) && entry_name(es[i]) == n);
            }
        }
        assert forall|i: int|
            0 <= i < es.len() && entry_kept(#[trigger] es[i], exts) implies m.contains_key(
            entry_name(es[i]),
        ) && m[entry_name(es[i])] == entry_scanned(es[i], exts) by {
            if i == es.len() - 1 {
            } else {
                assert(es.drop_last()[i] == es[i]);
                assert(entry_kept(es.drop_last()[i], exts));
                assert(m0.contains_key(entry_name(es[i])));
                assert(m0[entry_name(es[i])] == entry_scanned(es[i], exts));
                if entry_kept(last, exts) {
                    assert(!m0.contains_key(entry_name(last)));
                }
            }
        }
    }
}

/// A scan that succeeds returns nothing exactly when nothing below matched;
/// otherwise the filtered tree is there.
pub proof fn lemma_scan_none_iff_no_match(l: RawListing, exts: Seq<Seq<u8>>)
    requires
        scan_listing(l, exts) is Ok,
    ensures
        scan_listing(l, exts) == Ok::<Option<ItemModel>, TreeErrorModel>(None) <==> !listing_has_match(l, exts),
    decreases l,
{
    match l {
        RawListing::Denied => {},
        RawListing::Failed { .. } => {},
        RawListing::Entries(es) => {
            let m = scan_entries(es@, exts)->Ok_0;
            lemma_scan_exact(es@, exts, m);
            if listing_has_match(l, exts) {
                let i = choose|i: int|
                    0 <= i < es@.len() && entry_has_match(#[trigger] es@[i], exts);
                match es@[i] {
                    RawEntry::File { name } => {
                        assert(entry_kept(es@[i], exts));
                        assert(m.contains_key(entry_name(es@[i])));
                    },
                    RawEntry::Dir { name, listing } => {
                        lemma_scan_entries_sub_ok(es@, exts, i);
                        assert(decreases_to!(l => es));
                        assert(decreases_to!(es => es@));
                        assert(decreases_to!(es@ => es@[i]));
                        assert(decreases_to!(es@[i] => listing));
                        lemma_scan_none_iff_no_match(listing, exts);
                        assert(entry_kept(es@[i], exts));
                        assert(m.contains_key(entry_name(es@[i])));
                    },
                    _ => {
                        assert(false);
                    },
                }
                assert(m != Map::<Seq<u8>, ItemModel>::empty());
            } else {
                assert forall|n: Seq<u8>| !(#[trigger] m.contains_key(n)) by {
                    if m.contains_key(n) {
                        let i = choose|i: int|
                            0 <= i < es@.len() && entry_kept(#[trigger] es@[i], exts)
                                && entry_name(es@[i]) == n;
                        match es@[i] {
                            RawEntry::File { name } => {
                                assert(entry_has_match(es@[i], exts));
                            },
                            RawEntry::Dir { name, listing } => {
                                lemma_scan_entries_sub_ok(es@, exts, i);
                                assert(decreases_to!(l => es));
                                assert(decreases_to!(es => es@));
                                assert(decreases_to!(es@ => es@[i]));
                                assert(decreases_to!(es@[i] => listing));
                                lemma_scan_none_iff_no_match(listing, exts);
                                assert(entry_has_match(es@[i], exts));
                            },
                            _ => {},
                        }
                    }
                }
                assert(m =~= Map::<Seq<u8>, ItemModel>::empty());
            }
        },
    }
}

/// When the whole fold succeeds, every subdirectory's own scan succeeded.
proof fn lemma_scan_entries_sub_ok(es: Seq<RawEntry>, exts: Seq<Seq<u8>>, i: int)
    requires
        scan_entries(es, exts) is Ok,
        0 <= i < es.len(),
        es[i] matches RawEntry::Dir { .. },
    ensures
        scan_listing(es[i]->Dir_listing, exts) is Ok,
{
    let pre = es.subrange(0, i);
    let pre1 = es.subrange(0, i + 1);
    assert(pre1.drop_last() =~= pre);
    assert(pre1.last() == es[i]);
    if scan_listing(es[i]->Dir_listing, exts) is Err {
        if scan_entries(pre, exts) is Err {
            lemma_scan_entries_err_prefix(es, exts, i);
        } else {
            assert(scan_entries(pre1, exts) is Err);
            lemma_scan_entries_err_prefix(es, exts, i + 1);
        }
        assert(false);
    }
}

} // verus!
