//! Plans of file-system operations for copying and merging folders, and the
//! conflicts that a merge would meet. The caller reads the source folder, notes for
//! each entry what lies at its destination, and carries the plan out in order.

use vstd::prelude::*;
use crate::paths::{joined, path_join};

verus! {

/// An entry of a source folder, with what lies at the path it would be copied to.
pub struct SourceEntry {
    pub name: String,
    /// Whether the entry itself is a folder (symbolic links are not followed).
    pub is_dir: bool,
    /// Whether something already exists at the entry's destination path.
    pub target_exists: bool,
    /// Whether the entry's destination path is a folder (links followed).
    pub target_is_dir: bool,
    /// The entries of a folder, in the order in which they were read.
    pub children: Vec<SourceEntry>,
}

/// One file-system operation.
pub enum FsOp {
    /// Create a folder and any missing parents.
    CreateDirAll { path: String },
    /// Copy a file's contents to a path, replacing what is there.
    CopyFile { from: String, to: String },
    /// Remove a file.
    RemoveFile { path: String },
    /// Remove a folder if it is empty; a failure is ignored.
    PruneDir { path: String },
    /// Remove a folder with everything in it.
    RemoveDirAll { path: String },
}

/// An operation, over paths as character sequences.
pub enum Op {
    CreateDirAll(Seq<char>),
    CopyFile(Seq<char>, Seq<char>),
    RemoveFile(Seq<char>),
    PruneDir(Seq<char>),
    RemoveDirAll(Seq<char>),
}

impl View for FsOp {
    type V = Op;

    open spec fn view(&self) -> Op {
        match self {
            FsOp::CreateDirAll { path } => Op::CreateDirAll(path@),
            FsOp::CopyFile { from, to } => Op::CopyFile(from@, to@),
            FsOp::RemoveFile { path } => Op::RemoveFile(path@),
            FsOp::PruneDir { path } => Op::PruneDir(path@),
            FsOp::RemoveDirAll { path } => Op::RemoveDirAll(path@),
        }
    }
}

/// The operations of a plan, as `Op`s.
pub open spec fn ops_view(ops: Seq<FsOp>) -> Seq<Op> {
    ops.map_values(|op: FsOp| op@)
}

/// Copying the folder `source` to `dest`: create `dest`, then copy its entries in order.
pub open spec fn copy_dir_ops(source: Seq<char>, dest: Seq<char>, entries: Seq<SourceEntry>) -> Seq<Op>
    decreases entries, 1nat,
{
    seq![Op::CreateDirAll(dest)] + copy_entries_ops(source, dest, entries)
}

/// Copying each entry of `entries` from `source` to `dest`: folders recursively,
/// files one by one.
pub open spec fn copy_entries_ops(source: Seq<char>, dest: Seq<char>, entries: Seq<SourceEntry>) -> Seq<Op>
    decreases entries, 0nat,
{
    if entries.len() == 0 {
        seq![]
    } else {
        let e = entries[0];
        let from = joined(source, e.name@);
        let to = joined(dest, e.name@);
        let first = if e.is_dir {
            copy_dir_ops(from, to, e.children@)
        } else {
            seq![Op::CopyFile(from, to)]
        };
        first + copy_entries_ops(source, dest, entries.drop_first())
    }
}

/// The operation at `k` removes the file that the operation just before it copied.
pub open spec fn removes_just_copied(ops: Seq<Op>, k: int) -> bool {
    k > 0 && match ops[k - 1] {
        Op::CopyFile(from, _) => ops[k] == Op::RemoveFile(from),
        _ => false,
    }
}

/// The operations that remove something from the source of a plan.
pub open spec fn is_removal(op: Op) -> bool {
    op is RemoveFile || op is PruneDir || op is RemoveDirAll
}

/// Merging the folder `source` into the existing folder `dest`: create `dest` if need
/// be, then merge its entries in order. A file whose destination is free is copied; one
/// whose destination exists is copied over it only when `replace`, else left alone. In
/// a cut, a file is removed from the source right after it has been copied, and each
/// merged sub-folder is then pruned if it has become empty.
pub open spec fn merge_dir_ops(
    source: Seq<char>,
    dest: Seq<char>,
    entries: Seq<SourceEntry>,
    cut: bool,
    replace: bool,
) -> Seq<Op>
    decreases entries, 1nat,
{
    seq![Op::CreateDirAll(dest)] + merge_entries_ops(source, dest, entries, cut, replace)
}

/// The file operations that move (in a cut) or copy one file.
pub open spec fn transfer_ops(from: Seq<char>, to: Seq<char>, cut: bool) -> Seq<Op> {
    if cut {
        seq![Op::CopyFile(from, to), Op::RemoveFile(from)]
    } else {
        seq![Op::CopyFile(from, to)]
    }
}

/// Merging each entry of `entries` from `source` into `dest` (see `merge_dir_ops`).
pub open spec fn merge_entries_ops(
    source: Seq<char>,
    dest: Seq<char>,
    entries: Seq<SourceEntry>,
    cut: bool,
    replace: bool,
) -> Seq<Op>
    decreases entries, 0nat,
{
    if entries.len() == 0 {
        seq![]
    } else {
        let e = entries[0];
        let from = joined(source, e.name@);
        let to = joined(dest, e.name@);
        let first = if e.is_dir {
            merge_dir_ops(from, to, e.children@, cut, replace)
                + (if cut { seq![Op::PruneDir(from)] } else { seq![] })
        } else if e.target_exists {
            if replace { transfer_ops(from, to, cut) } else { seq![] }
        } else {
            transfer_ops(from, to, cut)
        };
        first + merge_entries_ops(source, dest, entries.drop_first(), cut, replace)
    }
}

/// The destination paths of the files in `entries` that already exist there: the
/// conflicts of merging the folder into `dest`. Folders are looked into only where
/// their destination is a folder too.
pub open spec fn merge_conflicts(dest: Seq<char>, entries: Seq<SourceEntry>) -> Seq<Seq<char>>
    decreases entries,
{
    if entries.len() == 0 {
        seq![]
    } else {
        let e = entries[0];
        let to = joined(dest, e.name@);
        let first = if e.is_dir {
            if e.target_is_dir { merge_conflicts(to, e.children@) } else { seq![] }
        } else if e.target_exists {
            seq![to]
        } else {
            seq![]
        };
        first + merge_conflicts(dest, entries.drop_first())
    }
}

/// A merge that is not a cut removes nothing.
pub proof fn lemma_copy_merge_removes_nothing(source: Seq<char>, dest: Seq<char>, entries: Seq<SourceEntry>, replace: bool)
    ensures
        forall|k: int| 0 <= k < merge_dir_ops(source, dest, entries, false, replace).len()
            ==> !is_removal(#[trigger] merge_dir_ops(source, dest, entries, false, replace)[k]),
    decreases entries, 1nat,
{
    lemma_copy_merge_entries_removes_nothing(source, dest, entries, replace);
    let tail = merge_entries_ops(source, dest, entries, false, replace);
    let all = merge_dir_ops(source, dest, entries, false, replace);
    assert forall|k: int| 0 <= k < all.len() implies !is_removal(#[trigger] all[k]) by {
        if k > 0 {
            assert(all[k] == tail[k - 1]);
        }
    }
}

proof fn lemma_copy_merge_entries_removes_nothing(source: Seq<char>, dest: Seq<char>, entries: Seq<SourceEntry>, replace: bool)
    ensures
        forall|k: int| 0 <= k < merge_entries_ops(source, dest, entries, false, replace).len()
            ==> !is_removal(#[trigger] merge_entries_ops(source, dest, entries, false, replace)[k]),
    decreases entries, 0nat,
{
    if entries.len() > 0 {
        let e = entries[0];
        let from = joined(source, e.name@);
        let to = joined(dest, e.name@);
        let rest = merge_entries_ops(source, dest, entries.drop_first(), false, replace);
        lemma_copy_merge_entries_removes_nothing(source, dest, entries.drop_first(), replace);
        let first = if e.is_dir {
            lemma_copy_merge_removes_nothing(from, to, e.children@, replace);
            merge_dir_ops(from, to, e.children@, false, replace) + seq![]
        } else if e.target_exists {
            if replace { transfer_ops(from, to, false) } else { seq![] }
        } else {
            transfer_ops(from, to, false)
        };
        let all = merge_entries_ops(source, dest, entries, false, replace);
        assert(all == first + rest);
        assert forall|k: int| 0 <= k < all.len() implies !is_removal(#[trigger] all[k]) by {
            if k < first.len() {
                assert(all[k] == first[k]);
                if e.is_dir {
                    assert(first[k] == merge_dir_ops(from, to, e.children@, false, replace)[k]);
                }
            } else {
                assert(all[k] == rest[k - first.len()]);
            }
        }
    }
}

/// In a merge, a file is removed from the source only right after it was copied to
/// its destination: every `RemoveFile` follows a `CopyFile` of the same file.
pub proof fn lemma_merge_removes_only_copied_files(source: Seq<char>, dest: Seq<char>, entries: Seq<SourceEntry>, cut: bool, replace: bool)
    ensures
        forall|k: int| 0 <= k < merge_dir_ops(source, dest, entries, cut, replace).len()
            && #[trigger] merge_dir_ops(source, dest, entries, cut, replace)[k] is RemoveFile
            ==> removes_just_copied(merge_dir_ops(source, dest, entries, cut, replace), k),
    decreases entries, 1nat,
{
    lemma_merge_entries_removes_only_copied_files(source, dest, entries, cut, replace);
    let tail = merge_entries_ops(source, dest, entries, cut, replace);
    let all = merge_dir_ops(source, dest, entries, cut, replace);
    assert forall|k: int| 0 <= k < all.len() && #[trigger] all[k] is RemoveFile implies removes_just_copied(all, k) by {
        assert(all[k] == tail[k - 1]);
        if k >= 2 {
            assert(all[k - 1] == tail[k - 2]);
        }
    }
}

proof fn lemma_merge_entries_removes_only_copied_files(source: Seq<char>, dest: Seq<char>, entries: Seq<SourceEntry>, cut: bool, replace: bool)
    ensures
        forall|k: int| 0 <= k < merge_entries_ops(source, dest, entries, cut, replace).len()
            && #[trigger] merge_entries_ops(source, dest, entries, cut, replace)[k] is RemoveFile
            ==> removes_just_copied(merge_entries_ops(source, dest, entries, cut, replace), k),
    decreases entries, 0nat,
{
    if entries.len() > 0 {
        let e = entries[0];
        let from = joined(source, e.name@);
        let to = joined(dest, e.name@);
        let rest = merge_entries_ops(source, dest, entries.drop_first(), cut, replace);
        lemma_merge_entries_removes_only_copied_files(source, dest, entries.drop_first(), cut, replace);
        let first = if e.is_dir {
            lemma_merge_removes_only_copied_files(from, to, e.children@, cut, replace);
            merge_dir_ops(from, to, e.children@, cut, replace) + (if cut { seq![Op::PruneDir(from)] } else { seq![] })
        } else if e.target_exists {
            if replace { transfer_ops(from, to, cut) } else { seq![] }
        } else {
            transfer_ops(from, to, cut)
        };
        let all = merge_entries_ops(source, dest, entries, cut, replace);
        assert(all == first + rest);
        assert forall|k: int| 0 <= k < all.len() && #[trigger] all[k] is RemoveFile implies removes_just_copied(all, k) by {
            if k < first.len() {
                assert(all[k] == first[k]);
                assert(all[k - 1] == first[k - 1]);
                if e.is_dir {
                    let sub = merge_dir_ops(from, to, e.children@, cut, replace);
                    if k < sub.len() {
                        assert(first[k] == sub[k]);
                        assert(first[k - 1] == sub[k - 1]);
                    }
                }
            } else {
                let j = k - first.len();
                assert(all[k] == rest[j]);
                assert(all[k - 1] == rest[j - 1]);
            }
        }
    }
}

/// The operation at `k` copies a file, and the one right after it removes that file.
pub open spec fn copied_then_removed(ops: Seq<Op>, k: int) -> bool {
    k + 1 < ops.len() && match ops[k] {
        Op::CopyFile(from, _) => ops[k + 1] == Op::RemoveFile(from),
        _ => false,
    }
}

/// In a cut merge, every file that is copied is removed from the source right after:
/// together with `lemma_merge_removes_only_copied_files`, a cut merge removes exactly
/// the files it copies.
pub proof fn lemma_cut_merge_removes_every_copied_file(
    source: Seq<char>,
    dest: Seq<char>,
    entries: Seq<SourceEntry>,
    replace: bool,
)
    ensures
        forall|k: int| 0 <= k < merge_dir_ops(source, dest, entries, true, replace).len()
            && #[trigger] merge_dir_ops(source, dest, entries, true, replace)[k] is CopyFile
            ==> copied_then_removed(merge_dir_ops(source, dest, entries, true, replace), k),
    decreases entries, 1nat,
{
    lemma_cut_merge_entries_removes_every_copied_file(source, dest, entries, replace);
    let tail = merge_entries_ops(source, dest, entries, true, replace);
    let all = merge_dir_ops(source, dest, entries, true, replace);
    assert forall|k: int| 0 <= k < all.len() && #[trigger] all[k] is CopyFile implies copied_then_removed(all, k) by {
        assert(all[k] == tail[k - 1]);
        assert(all[k + 1] == tail[k]);
    }
}

proof fn lemma_cut_merge_entries_removes_every_copied_file(
    source: Seq<char>,
    dest: Seq<char>,
    entries: Seq<SourceEntry>,
    replace: bool,
)
    ensures
        forall|k: int| 0 <= k < merge_entries_ops(source, dest, entries, true, replace).len()
            && #[trigger] merge_entries_ops(source, dest, entries, true, replace)[k] is CopyFile
            ==> copied_then_removed(merge_entries_ops(source, dest, entries, true, replace), k),
    decreases entries, 0nat,
{
    if entries.len() > 0 {
        let e = entries[0];
        let from = joined(source, e.name@);
        let to = joined(dest, e.name@);
        let rest = merge_entries_ops(source, dest, entries.drop_first(), true, replace);
        lemma_cut_merge_entries_removes_every_copied_file(source, dest, entries.drop_first(), replace);
        let sub = merge_dir_ops(from, to, e.children@, true, replace);
        let first = if e.is_dir {
            lemma_cut_merge_removes_every_copied_file(from, to, e.children@, replace);
            sub + seq![Op::PruneDir(from)]
        } else if e.target_exists {
            if replace { transfer_ops(from, to, true) } else { seq![] }
        } else {
            transfer_ops(from, to, true)
        };
        let all = merge_entries_ops(source, dest, entries, true, replace);
        assert(all == first + rest);
        assert forall|k: int| 0 <= k < all.len() && #[trigger] all[k] is CopyFile implies copied_then_removed(all, k) by {
            if k < first.len() {
                assert(all[k] == first[k]);
                if e.is_dir {
                    if k < sub.len() {
                        assert(first[k] == sub[k]);
                        assert(copied_then_removed(sub, k));
                        assert(first[k + 1] == sub[k + 1]);
                    }
                } else {
                    assert(k == 0);
                }
                assert(all[k + 1] == first[k + 1]);
            } else {
                let j = k - first.len();
                assert(all[k] == rest[j]);
                assert(all[k + 1] == rest[j + 1]);
            }
        }
    }
}

/// Copying a folder removes nothing.
pub proof fn lemma_copy_removes_nothing(source: Seq<char>, dest: Seq<char>, entries: Seq<SourceEntry>)
    ensures
        forall|k: int| 0 <= k < copy_dir_ops(source, dest, entries).len()
            ==> !is_removal(#[trigger] copy_dir_ops(source, dest, entries)[k]),
    decreases entries, 1nat,
{
    lemma_copy_entries_removes_nothing(source, dest, entries);
    let tail = copy_entries_ops(source, dest, entries);
    let all = copy_dir_ops(source, dest, entries);
    assert forall|k: int| 0 <= k < all.len() implies !is_removal(#[trigger] all[k]) by {
        if k > 0 {
            assert(all[k] == tail[k - 1]);
        }
    }
}

proof fn lemma_copy_entries_removes_nothing(source: Seq<char>, dest: Seq<char>, entries: Seq<SourceEntry>)
    ensures
        forall|k: int| 0 <= k < copy_entries_ops(source, dest, entries).len()
            ==> !is_removal(#[trigger] copy_entries_ops(source, dest, entries)[k]),
    decreases entries, 0nat,
{
    if entries.len() > 0 {
        let e = entries[0];
        let from = joined(source, e.name@);
        let to = joined(dest, e.name@);
        let rest = copy_entries_ops(source, dest, entries.drop_first());
        lemma_copy_entries_removes_nothing(source, dest, entries.drop_first());
        let first = if e.is_dir {
            lemma_copy_removes_nothing(from, to, e.children@);
            copy_dir_ops(from, to, e.children@)
        } else {
            seq![Op::CopyFile(from, to)]
        };
        let all = copy_entries_ops(source, dest, entries);
        assert(all == first + rest);
        assert forall|k: int| 0 <= k < all.len() implies !is_removal(#[trigger] all[k]) by {
            if k < first.len() {
                assert(all[k] == first[k]);
            } else {
                assert(all[k] == rest[k - first.len()]);
            }
        }
    }
}

/// Appends to `ops` the plan for copying the folder `source`, whose entries are
/// `entries`, to `dest` (see `copy_dir_ops`).
pub fn copy_dir_plan(source: &str, dest: &str, entries: &Vec<SourceEntry>, ops: &mut Vec<FsOp>)
    ensures
        ops_view(final(ops)@) == ops_view(old(ops)@) + copy_dir_ops(source@, dest@, entries@),
    decreases entries@,
{
    let ghost start = ops_view(ops@);
    ops.push(FsOp::CreateDirAll { path: dest.to_owned() });
    assert(ops_view(ops@) =~= start + seq![Op::CreateDirAll(dest@)]);
    let mut i: usize = 0;
    assert(entries@.skip(0) =~= entries@);
    while i < entries.len()
        invariant
            i <= entries@.len(),
            start + copy_dir_ops(source@, dest@, entries@)
                == ops_view(ops@) + copy_entries_ops(source@, dest@, entries@.skip(i as int)),
        decreases entries@.len() - i,
    {
        let e = &entries[i];
        let ghost rest = entries@.skip(i as int);
        assert(rest[0] == *e);
        assert(rest.drop_first() =~= entries@.skip(i + 1));
        let from = path_join(source, e.name.as_str());
        let to = path_join(dest, e.name.as_str());
        let ghost before = ops_view(ops@);
        if e.is_dir {
            assert(decreases_to!(entries@ => e.children@)) by {
                assert(decreases_to!(entries@ => entries@[i as int]));
                assert(decreases_to!(entries@[i as int] => entries@[i as int].children));
                assert(decreases_to!(entries@[i as int].children => entries@[i as int].children@));
            }
            copy_dir_plan(from.as_str(), to.as_str(), &e.children, ops);
        } else {
            ops.push(FsOp::CopyFile { from, to });
            assert(ops_view(ops@) =~= before + seq![Op::CopyFile(from@, to@)]);
        }
        i = i + 1;
    }
    assert(entries@.skip(i as int) =~= Seq::<SourceEntry>::empty());
}

/// Appends the plan for moving (in a cut) or copying one file.
fn push_transfer(from: &String, to: &String, cut: bool, ops: &mut Vec<FsOp>)
    ensures
        ops_view(final(ops)@) == ops_view(old(ops)@) + transfer_ops(from@, to@, cut),
{
    let ghost before = ops_view(ops@);
    ops.push(FsOp::CopyFile { from: from.clone(), to: to.clone() });
    if cut {
        ops.push(FsOp::RemoveFile { path: from.clone() });
    }
    assert(ops_view(ops@) =~= before + transfer_ops(from@, to@, cut));
}

/// Appends to `ops` the plan for merging the folder `source`, whose entries are
/// `entries`, into the folder `dest` (see `merge_dir_ops`).
pub fn merge_dir_plan(source: &str, dest: &str, entries: &Vec<SourceEntry>, cut: bool, replace: bool, ops: &mut Vec<FsOp>)
    ensures
        ops_view(final(ops)@) == ops_view(old(ops)@) + merge_dir_ops(source@, dest@, entries@, cut, replace),
    decreases entries@,
{
    let ghost start = ops_view(ops@);
    ops.push(FsOp::CreateDirAll { path: dest.to_owned() });
    assert(ops_view(ops@) =~= start + seq![Op::CreateDirAll(dest@)]);
    let mut i: usize = 0;
    assert(entries@.skip(0) =~= entries@);
    while i < entries.len()
        invariant
            i <= entries@.len(),
            start + merge_dir_ops(source@, dest@, entries@, cut, replace)
                == ops_view(ops@) + merge_entries_ops(source@, dest@, entries@.skip(i as int), cut, replace),
        decreases entries@.len() - i,
    {
        let e = &entries[i];
        let ghost rest = entries@.skip(i as int);
        assert(rest[0] == *e);
        assert(rest.drop_first() =~= entries@.skip(i + 1));
        let from = path_join(source, e.name.as_str());
        let to = path_join(dest, e.name.as_str());
        let ghost before = ops_view(ops@);
        if e.is_dir {
            assert(decreases_to!(entries@ => e.children@)) by {
                assert(decreases_to!(entries@ => entries@[i as int]));
                assert(decreases_to!(entries@[i as int] => entries@[i as int].children));
                assert(decreases_to!(entries@[i as int].children => entries@[i as int].children@));
            }
            merge_dir_plan(from.as_str(), to.as_str(), &e.children, cut, replace, ops);
            if cut {
                let ghost mid = ops_view(ops@);
                ops.push(FsOp::PruneDir { path: from });
                assert(ops_view(ops@) =~= mid + seq![Op::PruneDir(from@)]);
            }
            assert(ops_view(ops@) =~= before + merge_dir_ops(from@, to@, e.children@, cut, replace)
                + (if cut { seq![Op::PruneDir(from@)] } else { seq![] }));
        } else if e.target_exists {
            if replace {
                push_transfer(&from, &to, cut, ops);
            } else {
                assert(ops_view(ops@) =~= before + Seq::<Op>::empty());
            }
        } else {
            push_transfer(&from, &to, cut, ops);
        }
        i = i + 1;
    }
    assert(entries@.skip(i as int) =~= Seq::<SourceEntry>::empty());
}

/// Appends to `conflicts` the destination paths of the files in `entries` that already
/// exist under `dest` (see `merge_conflicts`).
pub fn plan_merge_conflicts(dest: &str, entries: &Vec<SourceEntry>, conflicts: &mut Vec<String>)
    ensures
        final(conflicts).deep_view() == old(conflicts).deep_view() + merge_conflicts(dest@, entries@),
    decreases entries@,
{
    let ghost start = conflicts.deep_view();
    let mut i: usize = 0;
    assert(entries@.skip(0) =~= entries@);
    while i < entries.len()
        invariant
            i <= entries@.len(),
            start + merge_conflicts(dest@, entries@)
                == conflicts.deep_view() + merge_conflicts(dest@, entries@.skip(i as int)),
        decreases entries@.len() - i,
    {
        let e = &entries[i];
        let ghost rest = entries@.skip(i as int);
        assert(rest[0] == *e);
        assert(rest.drop_first() =~= entries@.skip(i + 1));
        let to = path_join(dest, e.name.as_str());
        let ghost before = conflicts.deep_view();
        if e.is_dir {
            if e.target_is_dir {
                assert(decreases_to!(entries@ => e.children@)) by {
                    assert(decreases_to!(entries@ => entries@[i as int]));
                    assert(decreases_to!(entries@[i as int] => entries@[i as int].children));
                    assert(decreases_to!(entries@[i as int].children => entries@[i as int].children@));
                }
                plan_merge_conflicts(to.as_str(), &e.children, conflicts);
            } else {
                assert(conflicts.deep_view() =~= before + Seq::<Seq<char>>::empty());
            }
        } else if e.target_exists {
            conflicts.push(to);
            assert(conflicts.deep_view() =~= before + seq![to@]);
        } else {
            assert(conflicts.deep_view() =~= before + Seq::<Seq<char>>::empty());
        }
        i = i + 1;
    }
    assert(entries@.skip(i as int) =~= Seq::<SourceEntry>::empty());
    assert(merge_conflicts(dest@, Seq::<SourceEntry>::empty()) =~= Seq::<Seq<char>>::empty());
}

/// Each file of the folder itself whose destination exists is a conflict of the merge.
pub proof fn lemma_existing_file_conflicts(dest: Seq<char>, entries: Seq<SourceEntry>, k: int)
    requires
        0 <= k < entries.len(),
        !entries[k].is_dir,
        entries[k].target_exists,
    ensures
        merge_conflicts(dest, entries).contains(joined(dest, entries[k].name@)),
    decreases k,
{
    let e = entries[0];
    let to = joined(dest, e.name@);
    let first = if e.is_dir {
        if e.target_is_dir { merge_conflicts(to, e.children@) } else { seq![] }
    } else if e.target_exists {
        seq![to]
    } else {
        seq![]
    };
    let rest = merge_conflicts(dest, entries.drop_first());
    assert(merge_conflicts(dest, entries) == first + rest);
    if k == 0 {
        assert((first + rest)[0] == to);
    } else {
        lemma_existing_file_conflicts(dest, entries.drop_first(), k - 1);
        assert(entries.drop_first()[k - 1] == entries[k]);
        let j = choose|j: int| 0 <= j < rest.len() && rest[j] == joined(dest, entries[k].name@);
        assert((first + rest)[first.len() + j] == joined(dest, entries[k].name@));
    }
}

} // verus!
