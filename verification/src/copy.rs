//! The copier's planning and decision half. Walking a tree yields a copy
//! plan: one step per node, depth first, a directory before its children.
//! Executing a step against the destination is a decision from the step and
//! whether the destination path already exists; a file that is already
//! there is fatal, and nothing is ever overwritten.

use vstd::prelude::*;

use crate::tree::FileSystemItem;

verus! {

/// One step of a copy, over a destination-relative component path.
#[derive(Debug, PartialEq, Eq)]
pub enum CopyStep {
    /// Make sure the destination directory at `path` is there.
    CreateDir { path: Vec<Vec<u8>> },
    /// Copy the source file at `path` to the same path under the
    /// destination, which must not hold it yet.
    CopyFile { path: Vec<Vec<u8>> },
}

/// Mathematical model of one copy step.
pub enum CopyStepModel {
    CreateDir { path: Seq<Seq<u8>> },
    CopyFile { path: Seq<Seq<u8>> },
}

impl CopyStep {
    /// The mathematical value of this step.
    pub open spec fn model(self) -> CopyStepModel {
        match self {
            CopyStep::CreateDir { path } => CopyStepModel::CreateDir { path: path.deep_view() },
            CopyStep::CopyFile { path } => CopyStepModel::CopyFile { path: path.deep_view() },
        }
    }
}

/// The models of a sequence of steps.
pub open spec fn steps_model(s: Seq<CopyStep>) -> Seq<CopyStepModel> {
    s.map_values(|c: CopyStep| c.model())
}

/// The copy plan for one node standing at `at`: a file is one copy step; a
/// directory is its creation step followed by its children's plans, in
/// entry order.
pub open spec fn plan_of(item: FileSystemItem, at: Seq<Seq<u8>>) -> Seq<CopyStepModel>
    decreases item,
{
    match item {
        FileSystemItem::File => seq![CopyStepModel::CopyFile { path: at }],
        FileSystemItem::Directory(d) => seq![CopyStepModel::CreateDir { path: at }]
            + plan_of_entries(d.entries(), at),
    }
}

/// The concatenated plans of a directory's entries.
pub open spec fn plan_of_entries(s: Seq<(Vec<u8>, FileSystemItem)>, at: Seq<Seq<u8>>) -> Seq<
    CopyStepModel,
>
    decreases s,
{
    if s.len() == 0 {
        Seq::empty()
    } else {
        plan_of_entries(s.drop_last(), at) + plan_of(s.last().1, at.push(s.last().0@))
    }
}

/// How many files a subtree holds.
pub open spec fn file_count(item: FileSystemItem) -> nat
    decreases item,
{
    match item {
        FileSystemItem::File => 1,
        FileSystemItem::Directory(d) => files_in_entries(d.entries()),
    }
}

/// How many files a directory's entries hold together.
pub open spec fn files_in_entries(s: Seq<(Vec<u8>, FileSystemItem)>) -> nat
    decreases s,
{
    if s.len() == 0 {
        0
    } else {
        files_in_entries(s.drop_last()) + file_count(s.last().1)
    }
}

/// Whether a step copies a file.
pub open spec fn is_copy_step(c: CopyStepModel) -> bool {
    c is CopyFile
}

/// How many of a plan's steps copy a file.
pub open spec fn copies_in(plan: Seq<CopyStepModel>) -> nat
    decreases plan.len(),
{
    if plan.len() == 0 {
        0
    } else {
        copies_in(plan.drop_last()) + if is_copy_step(plan.last()) {
            1nat
        } else {
            0nat
        }
    }
}

/// Copy-step counting distributes over concatenation.
pub proof fn lemma_copies_in_add(a: Seq<CopyStepModel>, b: Seq<CopyStepModel>)
    ensures
        copies_in(a + b) == copies_in(a) + copies_in(b),
    decreases b.len(),
{
    if b.len() == 0 {
        assert(a + b =~= a);
    } else {
        assert((a + b).drop_last() =~= a + b.drop_last());
        assert((a + b).last() == b.last());
        lemma_copies_in_add(a, b.drop_last());
    }
}

/// A plan copies exactly as many files as the subtree holds, wherever the
/// subtree stands.
pub proof fn lemma_plan_copy_count(item: FileSystemItem, at: Seq<Seq<u8>>)
    ensures
        copies_in(plan_of(item, at)) == file_count(item),
    decreases item,
{
    match item {
        FileSystemItem::File => {
            let p = plan_of(item, at);
            assert(p =~= seq![CopyStepModel::CopyFile { path: at }]);
            assert(p.len() == 1);
            assert(p.drop_last() =~= Seq::<CopyStepModel>::empty());
            assert(copies_in(p.drop_last()) == 0);
            assert(is_copy_step(p.last()));
            assert(copies_in(p) == 1);
        },
        FileSystemItem::Directory(d) => {
            lemma_plan_entries_copy_count(d.entries(), at);
            let head = seq![CopyStepModel::CreateDir { path: at }];
            assert(copies_in(head) == 0) by {
                assert(head.len() == 1);
                assert(head.drop_last() =~= Seq::<CopyStepModel>::empty());
                assert(copies_in(head.drop_last()) == 0);
                assert(!is_copy_step(head.last()));
            }
            lemma_copies_in_add(head, plan_of_entries(d.entries(), at));
        },
    }
}

/// The entries' concatenated plans copy exactly the entries' files.
pub proof fn lemma_plan_entries_copy_count(s: Seq<(Vec<u8>, FileSystemItem)>, at: Seq<Seq<u8>>)
    ensures
        copies_in(plan_of_entries(s, at)) == files_in_entries(s),
    decreases s,
{
    if s.len() == 0 {
    } else {
        lemma_plan_entries_copy_count(s.drop_last(), at);
        lemma_plan_copy_count(s.last().1, at.push(s.last().0@));
        lemma_copies_in_add(
            plan_of_entries(s.drop_last(), at),
            plan_of(s.last().1, at.push(s.last().0@)),
        );
    }
}


/// Every file-copy step comes after the step that makes the file's own
/// directory: single-level directory creation suffices when a plan is
/// carried out in order.
pub open spec fn parents_made_first(plan: Seq<CopyStepModel>) -> bool {
    forall|k: int|
        0 <= k < plan.len() ==> ((#[trigger] plan[k]) matches CopyStepModel::CopyFile { path }
            ==> exists|j: int|
            0 <= j < k && plan[j] == (CopyStepModel::CreateDir { path: path.drop_last() }))
}

/// As `parents_made_first`, for the steps of a directory's children, whose
/// own directory `at` was made before the sequence begins.
pub open spec fn parents_made_or_at(plan: Seq<CopyStepModel>, at: Seq<Seq<u8>>) -> bool {
    forall|k: int|
        0 <= k < plan.len() ==> ((#[trigger] plan[k]) matches CopyStepModel::CopyFile { path }
            ==> path.drop_last() == at || exists|j: int|
            0 <= j < k && plan[j] == (CopyStepModel::CreateDir { path: path.drop_last() }))
}

/// A directory's plan makes each directory before any file inside it.
pub proof fn lemma_plan_parents_first(item: FileSystemItem, at: Seq<Seq<u8>>)
    requires
        item is Directory,
    ensures
        parents_made_first(plan_of(item, at)),
{
    let d = item->Directory_0;
    lemma_plan_entries_parents(d.entries(), at);
    let head = seq![CopyStepModel::CreateDir { path: at }];
    let pe = plan_of_entries(d.entries(), at);
    let plan = plan_of(item, at);
    assert(plan == head + pe);
    assert forall|k: int|
        0 <= k < plan.len() implies ((#[trigger] plan[k]) matches CopyStepModel::CopyFile { path }
        ==> exists|j: int|
        0 <= j < k && plan[j] == (CopyStepModel::CreateDir { path: path.drop_last() })) by {
        if k >= 1 {
            assert(plan[k] == pe[k - 1]);
            match pe[k - 1] {
                CopyStepModel::CopyFile { path } => {
                    if path.drop_last() == at {
                        assert(plan[0] == (CopyStepModel::CreateDir { path: path.drop_last() }));
                    } else {
                        let j = choose|j: int|
                            0 <= j < k - 1 && pe[j] == (CopyStepModel::CreateDir {
                                path: path.drop_last(),
                            });
                        assert(plan[j + 1] == pe[j]);
                    }
                },
                CopyStepModel::CreateDir { .. } => {},
            }
        }
    }
}

/// The children's concatenated plans make each directory before any file
/// inside it, counting the children's own directory as already made.
proof fn lemma_plan_entries_parents(s: Seq<(Vec<u8>, FileSystemItem)>, at: Seq<Seq<u8>>)
    ensures
        parents_made_or_at(plan_of_entries(s, at), at),
    decreases s,
{
    if s.len() == 0 {
    } else {
        lemma_plan_entries_parents(s.drop_last(), at);
        let left = plan_of_entries(s.drop_last(), at);
        let item = s.last().1;
        let at1 = at.push(s.last().0@);
        let right = plan_of(item, at1);
        let plan = plan_of_entries(s, at);
        assert(plan == left + right);
        match item {
            FileSystemItem::File => {},
            FileSystemItem::Directory(d2) => {
                assert(decreases_to!(s => s[s.len() - 1]));
                assert(decreases_to!(s[s.len() - 1] => s[s.len() - 1].1));
                assert(decreases_to!(item => item->Directory_0));
                assert(decreases_to!(d2 => d2.content));
                assert(decreases_to!(d2.content => d2.content@));
                lemma_plan_entries_parents(d2.entries(), at1);
            },
        }
        assert forall|k: int|
            0 <= k < plan.len() implies ((#[trigger] plan[k]) matches CopyStepModel::CopyFile {
            path } ==> path.drop_last() == at || exists|j: int|
            0 <= j < k && plan[j] == (CopyStepModel::CreateDir { path: path.drop_last() })) by {
            if k < left.len() {
                assert(plan[k] == left[k]);
                match left[k] {
                    CopyStepModel::CopyFile { path } => {
                        if path.drop_last() != at {
                            let j = choose|j: int|
                                0 <= j < k && left[j] == (CopyStepModel::CreateDir {
                                    path: path.drop_last(),
                                });
                            assert(plan[j] == left[j]);
                        }
                    },
                    CopyStepModel::CreateDir { .. } => {},
                }
            } else {
                let r = k - left.len();
                assert(plan[k] == right[r]);
                match item {
                    FileSystemItem::File => {
                        assert(right =~= seq![CopyStepModel::CopyFile { path: at1 }]);
                        match right[r] {
                            CopyStepModel::CopyFile { path } => {
                                assert(path == at1);
                                assert(path.drop_last() =~= at);
                            },
                            CopyStepModel::CreateDir { .. } => {},
                        }
                    },
                    FileSystemItem::Directory(d2) => {
                        let head = seq![CopyStepModel::CreateDir { path: at1 }];
                        let pe2 = plan_of_entries(d2.entries(), at1);
                        assert(right == head + pe2);
                        if r == 0 {
                        } else {
                            assert(right[r] == pe2[r - 1]);
                            match pe2[r - 1] {
                                CopyStepModel::CopyFile { path } => {
                                    if path.drop_last() == at1 {
                                        assert(plan[left.len() as int] == (CopyStepModel::CreateDir {
                                            path: path.drop_last(),
                                        }));
                                    } else {
                                        let j = choose|j: int|
                                            0 <= j < r - 1 && pe2[j] == (CopyStepModel::CreateDir {
                                                path: path.drop_last(),
                                            });
                                        assert(plan[left.len() as int + 1 + j] == pe2[j]);
                                    }
                                },
                                CopyStepModel::CreateDir { .. } => {},
                            }
                        }
                    },
                }
            }
        }
    }
}

/// Copies a component path.
fn clone_path(p: &Vec<Vec<u8>>) -> (r: Vec<Vec<u8>>)
    ensures
        r.deep_view() == p.deep_view(),
        r@.len() == p@.len(),
{
    let mut r: Vec<Vec<u8>> = Vec::new();
    let n = p.len();
    let mut i: usize = 0;
    while i < n
        invariant
            i <= n,
            n == p@.len(),
            r@.len() == i,
            forall|k: int| 0 <= k < i ==> r@[k]@ == p@[k]@,
        decreases n - i,
    {
        let c = p[i].clone();
        proof {
            assert(c@ =~= p@[i as int]@);
        }
        r.push(c);
        i = i + 1;
    }
    proof {
        assert(r.deep_view() =~~= p.deep_view());
    }
    r
}

/// The copy plan for the subtree `item` standing at the destination-relative
/// path `current_path`: exactly the steps `plan_of` describes, in order.
/// Executing them in order, aborting at the first failure, is the whole
/// copy; nothing is copied out of order.
pub fn copy_plan(item: &FileSystemItem, current_path: &Vec<Vec<u8>>) -> (r: Vec<CopyStep>)
    ensures
        steps_model(r@) == plan_of(*item, current_path.deep_view()),
    decreases *item,
{
    let ghost at = current_path.deep_view();
    let mut out: Vec<CopyStep> = Vec::new();
    match item {
        FileSystemItem::File => {
            out.push(CopyStep::CopyFile { path: clone_path(current_path) });
            proof {
                assert(steps_model(out@) =~= plan_of(*item, at));
            }
            out
        },
        FileSystemItem::Directory(d) => {
            out.push(CopyStep::CreateDir { path: clone_path(current_path) });
            let ghost head = seq![CopyStepModel::CreateDir { path: at }];
            proof {
                assert(steps_model(out@) =~= head + plan_of_entries(
                    d.entries().subrange(0, 0),
                    at,
                ));
            }
            let dc = d.content();
            let n = dc.len();
            let mut i: usize = 0;
            while i < n
                invariant
                    i <= n,
                    n == d.entries().len(),
                    dc@ == d.entries(),
                    at == current_path.deep_view(),
                    *item == FileSystemItem::Directory(*d),
                    steps_model(out@) == head + plan_of_entries(
                        d.entries().subrange(0, i as int),
                        at,
                    ),
                decreases n - i,
            {
                let entry = &dc[i];
                let mut child_path = clone_path(current_path);
                let own = entry.0.clone();
                proof {
                    assert(own@ =~= entry.0@);
                }
                child_path.push(own);
                proof {
                    assert(child_path.deep_view() =~~= at.push(entry.0@));
                    assert(*item == FileSystemItem::Directory(*d));
                    assert(item->Directory_0 == *d);
                    assert(decreases_to!(*item => item->Directory_0));
                    assert(decreases_to!(*d => d.content));
                    assert(decreases_to!(d.content => d.content@));
                    assert(decreases_to!(d.content@ => d.content@[i as int]));
                    assert(decreases_to!(d.content@[i as int] => entry.1));
                }
                let mut sub = copy_plan(&entry.1, &child_path);
                let ghost out_before = steps_model(out@);
                let ghost sub_model = steps_model(sub@);
                out.append(&mut sub);
                proof {
                    assert(steps_model(out@) =~= out_before + sub_model);
                    assert(d.entries().subrange(0, i as int + 1).drop_last() =~= d.entries()
                        .subrange(0, i as int));
                    assert(d.entries().subrange(0, i as int + 1).last() == d.entries()[i as int]);
                    assert(steps_model(out@) =~= head + plan_of_entries(
                        d.entries().subrange(0, i as int + 1),
                        at,
                    ));
                }
                i = i + 1;
            }
            proof {
                assert(d.entries().subrange(0, n as int) =~= d.entries());
            }
            out
        },
    }
}

/// What the failure of a copy step means: the destination file was already
/// there; the copier never overwrites.
#[derive(Debug, PartialEq, Eq)]
pub struct AlreadyExists {
    pub path: Vec<Vec<u8>>,
}

/// The work one step asks for, once the destination has been probed.
#[derive(Debug, PartialEq, Eq)]
pub enum CopyAction {
    /// Copy the source file to the destination path.
    TransferFile,
    /// Create the destination directory.
    MakeDirectory,
    /// The destination directory is already there; nothing to do.
    Nothing,
}

/// Decides one copy step, given whether the step's destination path already
/// exists: an existing destination file is fatal; an existing destination
/// directory is kept; anything else is carried out.
pub fn copy_step_action(step: &CopyStep, destination_exists: bool) -> (r: Result<
    CopyAction,
    AlreadyExists,
>)
    ensures
        match r {
            Ok(CopyAction::TransferFile) => step is CopyFile && !destination_exists,
            Ok(CopyAction::MakeDirectory) => step is CreateDir && !destination_exists,
            Ok(CopyAction::Nothing) => step is CreateDir && destination_exists,
            Err(e) => step is CopyFile && destination_exists && e.path.deep_view()
                == step->CopyFile_path.deep_view(),
        },
{
    match step {
        CopyStep::CopyFile { path } => {
            if destination_exists {
                Err(AlreadyExists { path: clone_path(path) })
            } else {
                Ok(CopyAction::TransferFile)
            }
        },
        CopyStep::CreateDir { path: _ } => {
            if destination_exists {
                Ok(CopyAction::Nothing)
            } else {
                Ok(CopyAction::MakeDirectory)
            }
        },
    }
}

} // verus!
