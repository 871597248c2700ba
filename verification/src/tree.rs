//! The in-memory tree model: nested file and directory nodes, keyed by
//! platform-native entry names (byte strings), with unique keys inside each
//! directory.

use vstd::prelude::*;

verus! {

/// Mathematical model of one tree node: a file, or a directory seen as a
/// mapping from entry name to the model of the child node.
#[verifier::ext_equal]
pub enum ItemModel {
    File,
    Dir(Map<Seq<u8>, ItemModel>),
}

/// One node of an in-memory filesystem subtree: a file leaf or a directory.
#[derive(Debug, PartialEq, Eq)]
pub enum FileSystemItem {
    File,
    Directory(Directory),
}

/// A directory: entries from name to child node, in insertion order.
/// Well-formed directories never hold the same name twice.
#[derive(Debug, PartialEq, Eq)]
pub struct Directory {
    /// The entries, in insertion order. Building code must keep names
    /// unique; the data type itself does not prevent a collision.
    pub content: Vec<(Vec<u8>, FileSystemItem)>,
}

/// A fatal condition while scanning or rebuilding a tree: an IO failure
/// carried through from a directory listing, or two entries resolving to the
/// same key within one directory.
#[derive(Debug, PartialEq, Eq)]
pub enum TreeError {
    Io { message: String },
    NameCollision { name: Vec<u8> },
}

/// Mathematical model of a fatal condition.
pub enum TreeErrorModel {
    Io { message: Seq<char> },
    NameCollision { name: Seq<u8> },
}

impl TreeError {
    /// The mathematical value of this error.
    pub open spec fn model(self) -> TreeErrorModel {
        match self {
            TreeError::Io { message } => TreeErrorModel::Io { message: message@ },
            TreeError::NameCollision { name } => TreeErrorModel::NameCollision { name: name@ },
        }
    }
}

/// The map modelled by a sequence of named entries; a later entry under the
/// same name wins, as with repeated map insertion.
pub open spec fn entries_model(s: Seq<(Vec<u8>, FileSystemItem)>) -> Map<Seq<u8>, ItemModel>
    decreases s,
{
    if s.len() == 0 {
        Map::empty()
    } else {
        entries_model(s.drop_last()).insert(s.last().0@, s.last().1.model())
    }
}

impl FileSystemItem {
    /// The mathematical value of this node.
    pub open spec fn model(self) -> ItemModel
        decreases self,
    {
        match self {
            FileSystemItem::File => ItemModel::File,
            FileSystemItem::Directory(d) => ItemModel::Dir(d.model()),
        }
    }

    /// Every directory in this subtree has unique entry names.
    pub open spec fn wf(self) -> bool
        decreases self,
    {
        match self {
            FileSystemItem::File => true,
            FileSystemItem::Directory(d) => d.wf(),
        }
    }
}

/// Every directory in this subtree, itself included if it is one, holds at
/// least one entry. Scanner output is always of this shape: an empty
/// directory is omitted, never represented.
pub open spec fn all_dirs_filled(item: FileSystemItem) -> bool
    decreases item,
{
    match item {
        FileSystemItem::File => true,
        FileSystemItem::Directory(d) => d.entries().len() > 0 && (forall|i: int|
            0 <= i < d.entries().len() ==> all_dirs_filled(#[trigger] d.entries()[i].1)),
    }
}

impl Directory {
    /// The entries of this directory, in order, as a mathematical sequence.
    pub open spec fn entries(self) -> Seq<(Vec<u8>, FileSystemItem)> {
        self.content@
    }

    /// The mapping from entry name to child model.
    pub open spec fn model(self) -> Map<Seq<u8>, ItemModel>
        decreases self,
    {
        entries_model(self.entries())
    }

    /// Whether an entry of the given name is present.
    pub open spec fn has_name(self, name: Seq<u8>) -> bool {
        exists|i: int| 0 <= i < self.entries().len() && self.entries()[i].0@ == name
    }

    /// Entry names are unique, here and in every subdirectory.
    pub open spec fn wf(self) -> bool
        decreases self,
    {
        &&& forall|i: int, j: int|
            #![trigger self.entries()[i].0, self.entries()[j].0]
            0 <= i < j < self.entries().len() ==> self.entries()[i].0@ != self.entries()[j].0@
        &&& forall|i: int| 0 <= i < self.entries().len() ==> (#[trigger] self.entries()[i].1).wf()
    }

    /// An empty directory.
    pub fn new() -> (d: Directory)
        ensures
            d.entries().len() == 0,
            d.model() == Map::<Seq<u8>, ItemModel>::empty(),
            d.wf(),
    {
        Directory { content: Vec::new() }
    }

    /// The entries of this directory, in order.
    pub fn content(&self) -> (r: &Vec<(Vec<u8>, FileSystemItem)>)
        ensures
            r@ == self.entries(),
    {
        &self.content
    }

    /// How many entries this directory holds.
    pub fn len(&self) -> (n: usize)
        ensures
            n == self.entries().len(),
    {
        self.content.len()
    }

    /// Appends an entry at the end.
    pub fn push_entry(&mut self, name: Vec<u8>, item: FileSystemItem)
        ensures
            final(self).entries() == old(self).entries().push((name, item)),
    {
        self.content.push((name, item));
    }

    /// Removes and returns the entry at position `j`.
    pub fn remove_entry(&mut self, j: usize) -> (e: (Vec<u8>, FileSystemItem))
        requires
            j < old(self).entries().len(),
        ensures
            final(self).entries() == old(self).entries().remove(j as int),
            e == old(self).entries()[j as int],
    {
        self.content.remove(j)
    }

    /// Inserts an entry at position `j`, shifting later entries.
    pub fn insert_entry(&mut self, j: usize, name: Vec<u8>, item: FileSystemItem)
        requires
            j <= old(self).entries().len(),
        ensures
            final(self).entries() == old(self).entries().insert(j as int, (name, item)),
    {
        self.content.insert(j, (name, item));
    }

    /// Finds the position of the entry carrying `name`, if any.
    pub fn index_of(&self, name: &Vec<u8>) -> (r: Option<usize>)
        ensures
            match r {
                Some(j) => j < self.entries().len() && self.entries()[j as int].0@ == name@,
                None => !self.has_name(name@),
            },
    {
        let n = self.content.len();
        let mut i: usize = 0;
        while i < n
            invariant
                n == self.entries().len(),
                i <= n,
                forall|k: int| 0 <= k < i ==> self.entries()[k].0@ != name@,
            decreases n - i,
        {
            if bytes_eq(&self.content[i].0, name) {
                return Some(i);
            }
            i = i + 1;
        }
        None
    }
}

impl Default for Directory {
    /// An empty directory.
    fn default() -> (d: Directory)
        ensures
            d.entries().len() == 0,
            d.model() == Map::<Seq<u8>, ItemModel>::empty(),
            d.wf(),
    {
        Directory { content: Vec::new() }
    }
}

/// Byte-for-byte equality of two names.
pub fn bytes_eq(a: &Vec<u8>, b: &Vec<u8>) -> (r: bool)
    ensures
        r <==> a@ == b@,
{
    if a.len() != b.len() {
        return false;
    }
    let n = a.len();
    let mut i: usize = 0;
    while i < n
        invariant
            n == a@.len() == b@.len(),
            i <= n,
            forall|k: int| 0 <= k < i ==> a@[k] == b@[k],
        decreases n - i,
    {
        if a[i] != b[i] {
            return false;
        }
        i = i + 1;
    }
    proof {
        assert(a@ =~= b@);
    }
    true
}

/// A name is in the modelled map exactly when some entry carries it.
pub proof fn lemma_entries_model_dom(s: Seq<(Vec<u8>, FileSystemItem)>)
    ensures
        forall|n: Seq<u8>|
            #[trigger] entries_model(s).contains_key(n) <==> (exists|i: int|
                0 <= i < s.len() && s[i].0@ == n),
    decreases s.len(),
{
    if s.len() > 0 {
        lemma_entries_model_dom(s.drop_last());
        assert forall|n: Seq<u8>| #[trigger]
            entries_model(s).contains_key(n) implies (exists|i: int|
            0 <= i < s.len() && s[i].0@ == n) by {
            if n == s.last().0@ {
                assert(s[s.len() - 1].0@ == n);
            } else {
                assert(entries_model(s.drop_last()).contains_key(n));
                let i = choose|i: int| 0 <= i < s.drop_last().len() && s.drop_last()[i].0@ == n;
                assert(s[i].0@ == n);
            }
        }
        assert forall|n: Seq<u8>|
            (exists|i: int| 0 <= i < s.len() && s[i].0@ == n) implies #[trigger]
            entries_model(s).contains_key(n) by {
            let i = choose|i: int| 0 <= i < s.len() && s[i].0@ == n;
            if i < s.len() - 1 {
                assert(s.drop_last()[i].0@ == n);
                assert(entries_model(s.drop_last()).contains_key(n));
            }
        }
    }
}

/// With unique names, the modelled map sends each entry's name to that
/// entry's model.
pub proof fn lemma_entries_model_value(s: Seq<(Vec<u8>, FileSystemItem)>, j: int)
    requires
        0 <= j < s.len(),
        forall|i: int, k: int|
            #![trigger s[i].0, s[k].0]
            0 <= i < k < s.len() ==> s[i].0@ != s[k].0@,
    ensures
        entries_model(s).contains_key(s[j].0@),
        entries_model(s)[s[j].0@] == s[j].1.model(),
    decreases s.len(),
{
    lemma_entries_model_dom(s);
    if j < s.len() - 1 {
        assert(forall|i: int, k: int|
            #![trigger s.drop_last()[i].0, s.drop_last()[k].0]
            0 <= i < k < s.drop_last().len() ==> s.drop_last()[i].0@ != s.drop_last()[k].0@);
        lemma_entries_model_value(s.drop_last(), j);
        assert(s.drop_last()[j] == s[j]);
        assert(s[j].0@ != s.last().0@);
    }
}

/// With unique names, replacing the entry at `j` by one under the same name
/// re-inserts that name into the modelled map.
pub proof fn lemma_entries_model_update(
    s: Seq<(Vec<u8>, FileSystemItem)>,
    j: int,
    e: (Vec<u8>, FileSystemItem),
)
    requires
        0 <= j < s.len(),
        forall|i: int, k: int|
            #![trigger s[i].0, s[k].0]
            0 <= i < k < s.len() ==> s[i].0@ != s[k].0@,
        e.0@ == s[j].0@,
    ensures
        entries_model(s.update(j, e)) == entries_model(s).insert(e.0@, e.1.model()),
    decreases s.len(),
{
    let t = s.update(j, e);
    if j == s.len() - 1 {
        assert(t.drop_last() =~= s.drop_last());
        assert(t.last() == e);
        assert(entries_model(t) =~= entries_model(s).insert(e.0@, e.1.model()));
    } else {
        assert(forall|i: int, k: int|
            #![trigger s.drop_last()[i].0, s.drop_last()[k].0]
            0 <= i < k < s.drop_last().len() ==> s.drop_last()[i].0@ != s.drop_last()[k].0@);
        lemma_entries_model_update(s.drop_last(), j, e);
        assert(t.drop_last() =~= s.drop_last().update(j, e));
        assert(t.last() == s.last());
        assert(s[j].0@ != s.last().0@);
        assert(entries_model(t) =~= entries_model(s).insert(e.0@, e.1.model()));
    }
}

/// Appending a fresh entry inserts it into the modelled map.
pub proof fn lemma_entries_model_push(
    s: Seq<(Vec<u8>, FileSystemItem)>,
    e: (Vec<u8>, FileSystemItem),
)
    ensures
        entries_model(s.push(e)) == entries_model(s).insert(e.0@, e.1.model()),
{
    assert(s.push(e).drop_last() =~= s);
    assert(s.push(e).last() == e);
}

} // verus!
