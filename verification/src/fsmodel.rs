//! What the plans of `fsplan` do to the files of a file system: a model that keeps each
//! file's path and contents. Creating a folder and pruning an empty one change no file;
//! what a folder holds is not kept, so removing a whole folder is outside the model.

use vstd::prelude::*;
use crate::paths::joined;
use crate::fsplan::{Op, SourceEntry, copy_dir_ops, copy_entries_ops, merge_dir_ops, merge_entries_ops, transfer_ops};

verus! {

/// The files after one operation, or none when it fails: a copy or a removal fails when
/// there is no file at its source.
pub open spec fn apply_op(files: Map<Seq<char>, Seq<u8>>, op: Op) -> Option<Map<Seq<char>, Seq<u8>>> {
    match op {
        Op::CreateDirAll(_) => Some(files),
        Op::CopyFile(from, to) => if files.dom().contains(from) {
            Some(files.insert(to, files[from]))
        } else {
            None
        },
        Op::RemoveFile(path) => if files.dom().contains(path) {
            Some(files.remove(path))
        } else {
            None
        },
        Op::PruneDir(_) => Some(files),
        Op::RemoveDirAll(_) => None,
    }
}

/// The files after the operations in order, or none when one of them fails.
pub open spec fn run_ops(files: Map<Seq<char>, Seq<u8>>, ops: Seq<Op>) -> Option<Map<Seq<char>, Seq<u8>>>
    decreases ops.len(),
{
    if ops.len() == 0 {
        Some(files)
    } else {
        match run_ops(files, ops.drop_last()) {
            Some(f) => apply_op(f, ops.last()),
            None => None,
        }
    }
}

/// The files that copying the folder `source` to `dest` transfers, as (from, to), in order.
pub open spec fn copy_dir_files(source: Seq<char>, dest: Seq<char>, entries: Seq<SourceEntry>) -> Seq<(Seq<char>, Seq<char>)>
    decreases entries, 1nat,
{
    copy_entries_files(source, dest, entries)
}

/// The files that copying `entries` from `source` to `dest` transfers.
pub open spec fn copy_entries_files(source: Seq<char>, dest: Seq<char>, entries: Seq<SourceEntry>) -> Seq<(Seq<char>, Seq<char>)>
    decreases entries, 0nat,
{
    if entries.len() == 0 {
        seq![]
    } else {
        let e = entries[0];
        let from = joined(source, e.name@);
        let to = joined(dest, e.name@);
        let first = if e.is_dir { copy_dir_files(from, to, e.children@) } else { seq![(from, to)] };
        first + copy_entries_files(source, dest, entries.drop_first())
    }
}

/// The files that merging the folder `source` into `dest` transfers: every file whose
/// destination is free, and, when `replace`, every other file too (see `merge_dir_ops`).
pub open spec fn merge_dir_files(
    source: Seq<char>,
    dest: Seq<char>,
    entries: Seq<SourceEntry>,
    replace: bool,
) -> Seq<(Seq<char>, Seq<char>)>
    decreases entries, 1nat,
{
    merge_entries_files(source, dest, entries, replace)
}

/// The files that merging `entries` from `source` into `dest` transfers.
pub open spec fn merge_entries_files(
    source: Seq<char>,
    dest: Seq<char>,
    entries: Seq<SourceEntry>,
    replace: bool,
) -> Seq<(Seq<char>, Seq<char>)>
    decreases entries, 0nat,
{
    if entries.len() == 0 {
        seq![]
    } else {
        let e = entries[0];
        let from = joined(source, e.name@);
        let to = joined(dest, e.name@);
        let first = if e.is_dir {
            merge_dir_files(from, to, e.children@, replace)
        } else if !e.target_exists || replace {
            seq![(from, to)]
        } else {
            seq![]
        };
        first + merge_entries_files(source, dest, entries.drop_first(), replace)
    }
}

/// The operations that transfer the files of `pairs` in order (see `transfer_ops`).
pub open spec fn transfers_ops(pairs: Seq<(Seq<char>, Seq<char>)>, cut: bool) -> Seq<Op>
    decreases pairs.len(),
{
    if pairs.len() == 0 {
        seq![]
    } else {
        transfers_ops(pairs.drop_last(), cut) + transfer_ops(pairs.last().0, pairs.last().1, cut)
    }
}

/// The files after transferring `pairs` in order, each destination taking the contents
/// that its source had at the start, each source removed in a cut.
pub open spec fn transferred(files: Map<Seq<char>, Seq<u8>>, pairs: Seq<(Seq<char>, Seq<char>)>, cut: bool) -> Map<Seq<char>, Seq<u8>>
    decreases pairs.len(),
{
    if pairs.len() == 0 {
        files
    } else {
        let before = transferred(files, pairs.drop_last(), cut);
        let p = pairs.last();
        let written = before.insert(p.1, files[p.0]);
        if cut { written.remove(p.0) } else { written }
    }
}

/// The transfers can all be carried out and do not disturb each other: every source is
/// a file there, no source is also a destination, and in a cut no file is moved twice.
pub open spec fn transfers_separate(files: Map<Seq<char>, Seq<u8>>, pairs: Seq<(Seq<char>, Seq<char>)>, cut: bool) -> bool {
    &&& forall|i: int| 0 <= i < pairs.len() ==> files.dom().contains(#[trigger] pairs[i].0)
    &&& forall|i: int, j: int| 0 <= i < pairs.len() && 0 <= j < pairs.len() ==> #[trigger] pairs[i].0 != #[trigger] pairs[j].1
    &&& cut ==> forall|i: int, j: int| 0 <= i < j < pairs.len() ==> #[trigger] pairs[i].0 != #[trigger] pairs[j].0
}

pub proof fn lemma_run_concat(files: Map<Seq<char>, Seq<u8>>, a: Seq<Op>, b: Seq<Op>)
    ensures
        run_ops(files, a + b) == match run_ops(files, a) {
            Some(f) => run_ops(f, b),
            None => None,
        },
    decreases b.len(),
{
    if b.len() == 0 {
        assert(a + b =~= a);
    } else {
        lemma_run_concat(files, a, b.drop_last());
        assert((a + b).drop_last() =~= a + b.drop_last());
        assert((a + b).last() == b.last());
        match run_ops(files, a) {
            Some(f) => {},
            None => {},
        }
    }
}

proof fn lemma_transfers_concat(a: Seq<(Seq<char>, Seq<char>)>, b: Seq<(Seq<char>, Seq<char>)>, cut: bool)
    ensures
        transfers_ops(a + b, cut) == transfers_ops(a, cut) + transfers_ops(b, cut),
    decreases b.len(),
{
    if b.len() == 0 {
        assert(a + b =~= a);
        assert(transfers_ops(a, cut) + transfers_ops(b, cut) =~= transfers_ops(a, cut));
    } else {
        lemma_transfers_concat(a, b.drop_last(), cut);
        assert((a + b).drop_last() =~= a + b.drop_last());
        assert((a + b).last() == b.last());
        assert(transfers_ops(a + b, cut) =~= transfers_ops(a, cut) + transfers_ops(b, cut));
    }
}

proof fn lemma_transfers_single(from: Seq<char>, to: Seq<char>, cut: bool)
    ensures
        transfers_ops(seq![(from, to)], cut) == transfer_ops(from, to, cut),
{
    let pairs = seq![(from, to)];
    assert(pairs.drop_last() =~= Seq::<(Seq<char>, Seq<char>)>::empty());
    assert(transfers_ops(pairs.drop_last(), cut) =~= Seq::<Op>::empty());
    assert(pairs.last() == (from, to));
    assert(Seq::<Op>::empty() + transfer_ops(from, to, cut) =~= transfer_ops(from, to, cut));
}

proof fn lemma_copy_runs_transfers(files: Map<Seq<char>, Seq<u8>>, source: Seq<char>, dest: Seq<char>, entries: Seq<SourceEntry>)
    ensures
        run_ops(files, copy_dir_ops(source, dest, entries))
            == run_ops(files, transfers_ops(copy_dir_files(source, dest, entries), false)),
    decreases entries, 1nat,
{
    let create = seq![Op::CreateDirAll(dest)];
    lemma_run_concat(files, create, copy_entries_ops(source, dest, entries));
    assert(create.drop_last() =~= Seq::<Op>::empty());
    assert(run_ops(files, create.drop_last()) == Some(files));
    assert(run_ops(files, create) == Some(files));
    lemma_copy_entries_runs_transfers(files, source, dest, entries);
    assert(run_ops(files, copy_entries_ops(source, dest, entries))
        == run_ops(files, transfers_ops(copy_entries_files(source, dest, entries), false)));
}

proof fn lemma_copy_entries_runs_transfers(files: Map<Seq<char>, Seq<u8>>, source: Seq<char>, dest: Seq<char>, entries: Seq<SourceEntry>)
    ensures
        forall|f: Map<Seq<char>, Seq<u8>>| #[trigger] run_ops(f, copy_entries_ops(source, dest, entries))
            == run_ops(f, transfers_ops(copy_entries_files(source, dest, entries), false)),
    decreases entries, 0nat,
{
    if entries.len() == 0 {
        assert(transfers_ops(Seq::<(Seq<char>, Seq<char>)>::empty(), false) =~= Seq::<Op>::empty());
    } else {
        let e = entries[0];
        let from = joined(source, e.name@);
        let to = joined(dest, e.name@);
        let rest_ops = copy_entries_ops(source, dest, entries.drop_first());
        let rest_pairs = copy_entries_files(source, dest, entries.drop_first());
        lemma_copy_entries_runs_transfers(files, source, dest, entries.drop_first());
        let first_ops = if e.is_dir { copy_dir_ops(from, to, e.children@) } else { seq![Op::CopyFile(from, to)] };
        let first_pairs = if e.is_dir { copy_dir_files(from, to, e.children@) } else { seq![(from, to)] };
        lemma_transfers_concat(first_pairs, rest_pairs, false);
        assert forall|f: Map<Seq<char>, Seq<u8>>| #[trigger] run_ops(f, copy_entries_ops(source, dest, entries))
            == run_ops(f, transfers_ops(copy_entries_files(source, dest, entries), false)) by {
            lemma_run_concat(f, first_ops, rest_ops);
            lemma_run_concat(f, transfers_ops(first_pairs, false), transfers_ops(rest_pairs, false));
            if e.is_dir {
                lemma_copy_runs_transfers(f, from, to, e.children@);
            } else {
                lemma_transfers_single(from, to, false);
                assert(transfer_ops(from, to, false) == first_ops);
            }
            match run_ops(f, first_ops) {
                Some(g) => {
                    assert(run_ops(g, rest_ops) == run_ops(g, transfers_ops(rest_pairs, false)));
                },
                None => {},
            }
        }
    }
}

proof fn lemma_merge_runs_transfers(
    files: Map<Seq<char>, Seq<u8>>,
    source: Seq<char>,
    dest: Seq<char>,
    entries: Seq<SourceEntry>,
    cut: bool,
    replace: bool,
)
    ensures
        run_ops(files, merge_dir_ops(source, dest, entries, cut, replace))
            == run_ops(files, transfers_ops(merge_dir_files(source, dest, entries, replace), cut)),
    decreases entries, 1nat,
{
    let create = seq![Op::CreateDirAll(dest)];
    lemma_run_concat(files, create, merge_entries_ops(source, dest, entries, cut, replace));
    assert(create.drop_last() =~= Seq::<Op>::empty());
    assert(run_ops(files, create.drop_last()) == Some(files));
    assert(run_ops(files, create) == Some(files));
    lemma_merge_entries_runs_transfers(files, source, dest, entries, cut, replace);
    assert(run_ops(files, merge_entries_ops(source, dest, entries, cut, replace))
        == run_ops(files, transfers_ops(merge_entries_files(source, dest, entries, replace), cut)));
}

proof fn lemma_merge_entries_runs_transfers(
    files: Map<Seq<char>, Seq<u8>>,
    source: Seq<char>,
    dest: Seq<char>,
    entries: Seq<SourceEntry>,
    cut: bool,
    replace: bool,
)
    ensures
        forall|f: Map<Seq<char>, Seq<u8>>| #[trigger] run_ops(f, merge_entries_ops(source, dest, entries, cut, replace))
            == run_ops(f, transfers_ops(merge_entries_files(source, dest, entries, replace), cut)),
    decreases entries, 0nat,
{
    if entries.len() == 0 {
        assert(transfers_ops(Seq::<(Seq<char>, Seq<char>)>::empty(), cut) =~= Seq::<Op>::empty());
    } else {
        let e = entries[0];
        let from = joined(source, e.name@);
        let to = joined(dest, e.name@);
        let rest_ops = merge_entries_ops(source, dest, entries.drop_first(), cut, replace);
        let rest_pairs = merge_entries_files(source, dest, entries.drop_first(), replace);
        lemma_merge_entries_runs_transfers(files, source, dest, entries.drop_first(), cut, replace);
        let sub_ops = merge_dir_ops(from, to, e.children@, cut, replace);
        let prune = if cut { seq![Op::PruneDir(from)] } else { Seq::<Op>::empty() };
        let first_ops = if e.is_dir {
            sub_ops + prune
        } else if e.target_exists {
            if replace { transfer_ops(from, to, cut) } else { seq![] }
        } else {
            transfer_ops(from, to, cut)
        };
        let first_pairs = if e.is_dir {
            merge_dir_files(from, to, e.children@, replace)
        } else if !e.target_exists || replace {
            seq![(from, to)]
        } else {
            seq![]
        };
        assert(merge_entries_ops(source, dest, entries, cut, replace) == first_ops + rest_ops);
        lemma_transfers_concat(first_pairs, rest_pairs, cut);
        assert forall|f: Map<Seq<char>, Seq<u8>>| #[trigger] run_ops(f, merge_entries_ops(source, dest, entries, cut, replace))
            == run_ops(f, transfers_ops(merge_entries_files(source, dest, entries, replace), cut)) by {
            lemma_run_concat(f, first_ops, rest_ops);
            lemma_run_concat(f, transfers_ops(first_pairs, cut), transfers_ops(rest_pairs, cut));
            if e.is_dir {
                lemma_merge_runs_transfers(f, from, to, e.children@, cut, replace);
                lemma_run_concat(f, sub_ops, prune);
                match run_ops(f, sub_ops) {
                    Some(g) => {
                        if cut {
                            assert(prune.drop_last() =~= Seq::<Op>::empty());
                            assert(run_ops(g, prune.drop_last()) == Some(g));
                            assert(prune.last() == Op::PruneDir(from));
                        }
                        assert(run_ops(g, prune) == Some(g));
                    },
                    None => {},
                }
            } else if !e.target_exists || replace {
                lemma_transfers_single(from, to, cut);
            } else {
                assert(transfers_ops(first_pairs, cut) =~= Seq::<Op>::empty());
            }
            match run_ops(f, first_ops) {
                Some(g) => {
                    assert(run_ops(g, rest_ops) == run_ops(g, transfers_ops(rest_pairs, cut)));
                },
                None => {},
            }
        }
    }
}

proof fn lemma_separate_prefix(files: Map<Seq<char>, Seq<u8>>, pairs: Seq<(Seq<char>, Seq<char>)>, cut: bool)
    requires
        pairs.len() > 0,
        transfers_separate(files, pairs, cut),
    ensures
        transfers_separate(files, pairs.drop_last(), cut),
{
    let q = pairs.drop_last();
    assert forall|i: int| 0 <= i < q.len() implies files.dom().contains(#[trigger] q[i].0) by {
        assert(q[i] == pairs[i]);
    }
    assert forall|i: int, j: int| 0 <= i < q.len() && 0 <= j < q.len() implies #[trigger] q[i].0 != #[trigger] q[j].1 by {
        assert(q[i] == pairs[i] && q[j] == pairs[j]);
    }
    if cut {
        assert forall|i: int, j: int| 0 <= i < j < q.len() implies #[trigger] q[i].0 != #[trigger] q[j].0 by {
            assert(q[i] == pairs[i] && q[j] == pairs[j]);
        }
    }
}

/// A path that no transfer writes, nor (in a cut) removes, keeps its file, or its lack
/// of one.
pub proof fn lemma_transferred_untouched(files: Map<Seq<char>, Seq<u8>>, pairs: Seq<(Seq<char>, Seq<char>)>, cut: bool, path: Seq<char>)
    requires
        forall|i: int| 0 <= i < pairs.len() ==> #[trigger] pairs[i].1 != path,
        cut ==> forall|i: int| 0 <= i < pairs.len() ==> #[trigger] pairs[i].0 != path,
    ensures
        transferred(files, pairs, cut).dom().contains(path) == files.dom().contains(path),
        files.dom().contains(path) ==> transferred(files, pairs, cut)[path] == files[path],
    decreases pairs.len(),
{
    if pairs.len() > 0 {
        let q = pairs.drop_last();
        assert forall|i: int| 0 <= i < q.len() implies #[trigger] q[i].1 != path by {
            assert(q[i] == pairs[i]);
        }
        if cut {
            assert forall|i: int| 0 <= i < q.len() implies #[trigger] q[i].0 != path by {
                assert(q[i] == pairs[i]);
            }
        }
        lemma_transferred_untouched(files, q, cut, path);
        assert(pairs.last() == pairs[pairs.len() - 1]);
    }
}

/// The last transfer to a destination leaves there the contents that its source had at
/// the start.
pub proof fn lemma_transferred_destination(files: Map<Seq<char>, Seq<u8>>, pairs: Seq<(Seq<char>, Seq<char>)>, cut: bool, k: int)
    requires
        0 <= k < pairs.len(),
        transfers_separate(files, pairs, cut),
        forall|j: int| k < j < pairs.len() ==> #[trigger] pairs[j].1 != pairs[k].1,
    ensures
        transferred(files, pairs, cut).dom().contains(pairs[k].1),
        transferred(files, pairs, cut)[pairs[k].1] == files[pairs[k].0],
    decreases pairs.len(),
{
    let last = pairs.len() - 1;
    assert(pairs.last() == pairs[last]);
    assert(pairs[last].0 != pairs[k].1);
    if k < last {
        let q = pairs.drop_last();
        lemma_separate_prefix(files, pairs, cut);
        assert(q[k] == pairs[k]);
        assert forall|j: int| k < j < q.len() implies #[trigger] q[j].1 != q[k].1 by {
            assert(q[j] == pairs[j]);
        }
        lemma_transferred_destination(files, q, cut, k);
    }
}

/// In a cut, every source that was transferred is gone afterwards.
pub proof fn lemma_transferred_source_removed(files: Map<Seq<char>, Seq<u8>>, pairs: Seq<(Seq<char>, Seq<char>)>, k: int)
    requires
        0 <= k < pairs.len(),
        transfers_separate(files, pairs, true),
    ensures
        !transferred(files, pairs, true).dom().contains(pairs[k].0),
    decreases pairs.len(),
{
    let last = pairs.len() - 1;
    assert(pairs.last() == pairs[last]);
    assert(pairs[last].1 != pairs[k].0);
    if k < last {
        let q = pairs.drop_last();
        lemma_separate_prefix(files, pairs, true);
        assert(q[k] == pairs[k]);
        lemma_transferred_source_removed(files, q, k);
    }
}

/// Transfers that do not disturb each other can all be carried out, and give
/// `transferred`.
pub proof fn lemma_run_transfers(files: Map<Seq<char>, Seq<u8>>, pairs: Seq<(Seq<char>, Seq<char>)>, cut: bool)
    requires
        transfers_separate(files, pairs, cut),
    ensures
        run_ops(files, transfers_ops(pairs, cut)) == Some(transferred(files, pairs, cut)),
    decreases pairs.len(),
{
    if pairs.len() > 0 {
        let q = pairs.drop_last();
        let p = pairs.last();
        let last = pairs.len() - 1;
        assert(p == pairs[last]);
        lemma_separate_prefix(files, pairs, cut);
        lemma_run_transfers(files, q, cut);
        let m = transferred(files, q, cut);
        assert forall|i: int| 0 <= i < q.len() implies #[trigger] q[i].1 != p.0 by {
            assert(q[i] == pairs[i]);
        }
        if cut {
            assert forall|i: int| 0 <= i < q.len() implies #[trigger] q[i].0 != p.0 by {
                assert(q[i] == pairs[i]);
            }
        }
        assert(files.dom().contains(p.0));
        lemma_transferred_untouched(files, q, cut, p.0);
        let t = transfer_ops(p.0, p.1, cut);
        lemma_run_concat(files, transfers_ops(q, cut), t);
        let written = m.insert(p.1, files[p.0]);
        let copy = seq![Op::CopyFile(p.0, p.1)];
        assert(run_ops(m, copy) == Some(written)) by {
            assert(copy.drop_last() =~= Seq::<Op>::empty());
            assert(run_ops(m, copy.drop_last()) == Some(m));
            assert(copy.last() == Op::CopyFile(p.0, p.1));
            assert(m.dom().contains(p.0));
            assert(m[p.0] == files[p.0]);
        }
        if cut {
            assert(p.0 != p.1);
            assert(t.drop_last() =~= copy);
            assert(t.last() == Op::RemoveFile(p.0));
            assert(written.dom().contains(p.0));
            assert(run_ops(m, t) == Some(written.remove(p.0)));
        } else {
            assert(t =~= copy);
        }
    }
}

/// Copying a folder, on a file system where every file of the tree is there and no
/// destination path is also a source path: the plan runs through, and every copy takes
/// the contents of its source; no other file changes, the sources among them.
pub proof fn lemma_copy_dir_effect(files: Map<Seq<char>, Seq<u8>>, source: Seq<char>, dest: Seq<char>, entries: Seq<SourceEntry>)
    requires
        transfers_separate(files, copy_dir_files(source, dest, entries), false),
    ensures
        run_ops(files, copy_dir_ops(source, dest, entries)) == Some(transferred(files, copy_dir_files(source, dest, entries), false)),
{
    lemma_copy_runs_transfers(files, source, dest, entries);
    lemma_run_transfers(files, copy_dir_files(source, dest, entries), false);
}

/// Merging a folder, on a file system where every file of the tree is there and no
/// destination path is also a source path: the plan runs through and transfers exactly
/// the files of `merge_dir_files` (those whose destination is free, and with `replace`
/// the others too), each destination taking the contents of its source; in a cut,
/// exactly those sources are removed. A skipped file stays where it was, and the file
/// it would have replaced is left as it was (see `lemma_transferred_untouched`).
pub proof fn lemma_merge_dir_effect(
    files: Map<Seq<char>, Seq<u8>>,
    source: Seq<char>,
    dest: Seq<char>,
    entries: Seq<SourceEntry>,
    cut: bool,
    replace: bool,
)
    requires
        transfers_separate(files, merge_dir_files(source, dest, entries, replace), cut),
    ensures
        run_ops(files, merge_dir_ops(source, dest, entries, cut, replace))
            == Some(transferred(files, merge_dir_files(source, dest, entries, replace), cut)),
{
    lemma_merge_runs_transfers(files, source, dest, entries, cut, replace);
    lemma_run_transfers(files, merge_dir_files(source, dest, entries, replace), cut);
}

/// No two transfers share a destination.
pub open spec fn destinations_distinct(pairs: Seq<(Seq<char>, Seq<char>)>) -> bool {
    forall|i: int, j: int| 0 <= i < j < pairs.len() ==> #[trigger] pairs[i].1 != #[trigger] pairs[j].1
}

/// Every file that the transfers move still has its contents from the start at its
/// source or at its destination: nothing is lost.
pub open spec fn nothing_lost(files: Map<Seq<char>, Seq<u8>>, now: Map<Seq<char>, Seq<u8>>, pairs: Seq<(Seq<char>, Seq<char>)>) -> bool {
    forall|k: int| 0 <= k < pairs.len() ==> {
        ||| now.dom().contains(#[trigger] pairs[k].0) && now[pairs[k].0] == files[pairs[k].0]
        ||| now.dom().contains(pairs[k].1) && now[pairs[k].1] == files[pairs[k].0]
    }
}

proof fn lemma_transfers_len(pairs: Seq<(Seq<char>, Seq<char>)>, cut: bool)
    ensures
        transfers_ops(pairs, cut).len() == (if cut { 2 * pairs.len() } else { pairs.len() }),
    decreases pairs.len(),
{
    if pairs.len() > 0 {
        lemma_transfers_len(pairs.drop_last(), cut);
    }
}

proof fn lemma_prefix_of_concat(a: Seq<Op>, b: Seq<Op>, m: int)
    requires
        0 <= m <= a.len(),
    ensures
        (a + b).take(m) == a.take(m),
{
    assert((a + b).take(m) =~= a.take(m));
}

proof fn lemma_prefix_past_concat(a: Seq<Op>, b: Seq<Op>, m: int)
    requires
        a.len() <= m <= a.len() + b.len(),
    ensures
        (a + b).take(m) == a + b.take(m - a.len()),
{
    assert((a + b).take(m) =~= a + b.take(m - a.len()));
}

/// Stopping the transfers anywhere loses no file.
proof fn lemma_transfers_prefix_loses_nothing(files: Map<Seq<char>, Seq<u8>>, pairs: Seq<(Seq<char>, Seq<char>)>, cut: bool, m: int)
    requires
        transfers_separate(files, pairs, cut),
        destinations_distinct(pairs),
        0 <= m <= transfers_ops(pairs, cut).len(),
    ensures
        run_ops(files, transfers_ops(pairs, cut).take(m)) matches Some(now) && nothing_lost(files, now, pairs),
    decreases pairs.len(),
{
    lemma_transfers_len(pairs, cut);
    if pairs.len() == 0 {
        assert(transfers_ops(pairs, cut).take(m) =~= Seq::<Op>::empty());
    } else if m == transfers_ops(pairs, cut).len() {
        assert(transfers_ops(pairs, cut).take(m) =~= transfers_ops(pairs, cut));
        lemma_run_transfers(files, pairs, cut);
        let now = transferred(files, pairs, cut);
        assert forall|k: int| 0 <= k < pairs.len() implies {
            ||| now.dom().contains(#[trigger] pairs[k].0) && now[pairs[k].0] == files[pairs[k].0]
            ||| now.dom().contains(pairs[k].1) && now[pairs[k].1] == files[pairs[k].0]
        } by {
            lemma_transferred_destination(files, pairs, cut, k);
        }
    } else {
        let q = pairs.drop_last();
        let p = pairs.last();
        let last = pairs.len() - 1;
        assert(p == pairs[last]);
        lemma_separate_prefix(files, pairs, cut);
        assert(destinations_distinct(q)) by {
            assert forall|i: int, j: int| 0 <= i < j < q.len() implies #[trigger] q[i].1 != #[trigger] q[j].1 by {
                assert(q[i] == pairs[i] && q[j] == pairs[j]);
            }
        }
        lemma_transfers_len(q, cut);
        let tq = transfers_ops(q, cut);
        let t = transfer_ops(p.0, p.1, cut);
        assert(transfers_ops(pairs, cut) == tq + t);
        if m <= tq.len() {
            lemma_prefix_of_concat(tq, t, m);
            lemma_transfers_prefix_loses_nothing(files, q, cut, m);
            let now = run_ops(files, tq.take(m))->0;
            if cut {
                assert forall|i: int| 0 <= i < q.len() implies #[trigger] q[i].0 != p.0 by {
                    assert(q[i] == pairs[i]);
                }
            }
            assert forall|i: int| 0 <= i < q.len() implies #[trigger] q[i].1 != p.0 by {
                assert(q[i] == pairs[i]);
            }
            // The last file has not been touched yet: it is still at its source.
            lemma_untouched_by_prefix(files, q, cut, m, p.0);
            assert forall|k: int| 0 <= k < pairs.len() implies {
                ||| now.dom().contains(#[trigger] pairs[k].0) && now[pairs[k].0] == files[pairs[k].0]
                ||| now.dom().contains(pairs[k].1) && now[pairs[k].1] == files[pairs[k].0]
            } by {
                if k < last {
                    assert(q[k] == pairs[k]);
                }
            }
        } else {
            // A cut stopped between copying the last file and removing it.
            assert(cut && m == tq.len() + 1);
            lemma_prefix_past_concat(tq, t, m);
            assert(t.take(1) =~= seq![Op::CopyFile(p.0, p.1)]);
            lemma_run_transfers(files, q, cut);
            let before = transferred(files, q, cut);
            assert forall|i: int| 0 <= i < q.len() implies #[trigger] q[i].1 != p.0 by {
                assert(q[i] == pairs[i]);
            }
            assert forall|i: int| 0 <= i < q.len() implies #[trigger] q[i].0 != p.0 by {
                assert(q[i] == pairs[i]);
            }
            lemma_transferred_untouched(files, q, cut, p.0);
            let copy = seq![Op::CopyFile(p.0, p.1)];
            lemma_run_concat(files, tq, copy);
            assert(run_ops(before, copy) == Some(before.insert(p.1, files[p.0]))) by {
                assert(copy.drop_last() =~= Seq::<Op>::empty());
                assert(run_ops(before, copy.drop_last()) == Some(before));
                assert(copy.last() == Op::CopyFile(p.0, p.1));
            }
            let now = before.insert(p.1, files[p.0]);
            assert forall|k: int| 0 <= k < pairs.len() implies {
                ||| now.dom().contains(#[trigger] pairs[k].0) && now[pairs[k].0] == files[pairs[k].0]
                ||| now.dom().contains(pairs[k].1) && now[pairs[k].1] == files[pairs[k].0]
            } by {
                if k < last {
                    assert(q[k] == pairs[k]);
                    assert forall|j: int| k < j < q.len() implies #[trigger] q[j].1 != q[k].1 by {
                        assert(q[j] == pairs[j]);
                    }
                    lemma_transferred_destination(files, q, cut, k);
                    assert(pairs[k].1 != p.1);
                }
            }
        }
    }
}

/// A path that none of the transfers writes or removes is as it was after any number of
/// their operations.
proof fn lemma_untouched_by_prefix(files: Map<Seq<char>, Seq<u8>>, pairs: Seq<(Seq<char>, Seq<char>)>, cut: bool, m: int, path: Seq<char>)
    requires
        transfers_separate(files, pairs, cut),
        0 <= m <= transfers_ops(pairs, cut).len(),
        forall|i: int| 0 <= i < pairs.len() ==> #[trigger] pairs[i].1 != path,
        cut ==> forall|i: int| 0 <= i < pairs.len() ==> #[trigger] pairs[i].0 != path,
        run_ops(files, transfers_ops(pairs, cut).take(m)) is Some,
    ensures
        run_ops(files, transfers_ops(pairs, cut).take(m))->0.dom().contains(path) == files.dom().contains(path),
        files.dom().contains(path) ==> run_ops(files, transfers_ops(pairs, cut).take(m))->0[path] == files[path],
    decreases m,
{
    if m > 0 {
        let ops = transfers_ops(pairs, cut);
        let before = ops.take(m - 1);
        assert(ops.take(m).drop_last() =~= before);
        assert(ops.take(m).last() == ops[m - 1]);
        let r = run_ops(files, before);
        assert(r is Some);
        lemma_untouched_by_prefix(files, pairs, cut, m - 1, path);
        lemma_transfer_op_paths(pairs, cut, m - 1);
    }
}

/// Each operation of the transfers copies from a source to its destination, or removes
/// a source.
proof fn lemma_transfer_op_paths(pairs: Seq<(Seq<char>, Seq<char>)>, cut: bool, k: int)
    requires
        0 <= k < transfers_ops(pairs, cut).len(),
    ensures
        exists|i: int| 0 <= i < pairs.len() && (transfers_ops(pairs, cut)[k] == Op::CopyFile(#[trigger] pairs[i].0, pairs[i].1)
            || (cut && transfers_ops(pairs, cut)[k] == Op::RemoveFile(pairs[i].0))),
    decreases pairs.len(),
{
    let q = pairs.drop_last();
    let last = pairs.len() - 1;
    let p = pairs.last();
    assert(p == pairs[last]);
    let tq = transfers_ops(q, cut);
    let t = transfer_ops(p.0, p.1, cut);
    assert(transfers_ops(pairs, cut) == tq + t);
    if k < tq.len() {
        lemma_transfer_op_paths(q, cut, k);
        let i = choose|i: int| 0 <= i < q.len() && (tq[k] == Op::CopyFile(#[trigger] q[i].0, q[i].1) || (cut && tq[k] == Op::RemoveFile(q[i].0)));
        assert(q[i] == pairs[i]);
        assert(transfers_ops(pairs, cut)[k] == tq[k]);
    } else {
        assert(transfers_ops(pairs, cut)[k] == t[k - tq.len()]);
    }
}

proof fn lemma_merge_prefix_is_transfers_prefix(
    files: Map<Seq<char>, Seq<u8>>,
    source: Seq<char>,
    dest: Seq<char>,
    entries: Seq<SourceEntry>,
    cut: bool,
    replace: bool,
    m: int,
)
    requires
        0 <= m <= merge_dir_ops(source, dest, entries, cut, replace).len(),
    ensures
        exists|m2: int| 0 <= m2 <= transfers_ops(merge_dir_files(source, dest, entries, replace), cut).len()
            && run_ops(files, merge_dir_ops(source, dest, entries, cut, replace).take(m)) == run_ops(
                files,
                #[trigger] transfers_ops(merge_dir_files(source, dest, entries, replace), cut).take(m2),
            ),
    decreases entries, 1nat,
{
    let create = seq![Op::CreateDirAll(dest)];
    let body = merge_entries_ops(source, dest, entries, cut, replace);
    let ops = merge_dir_ops(source, dest, entries, cut, replace);
    let t = transfers_ops(merge_dir_files(source, dest, entries, replace), cut);
    assert(ops == create + body);
    if m == 0 {
        assert(ops.take(0) =~= t.take(0));
    } else {
        lemma_prefix_past_concat(create, body, m);
        lemma_run_concat(files, create, body.take(m - 1));
        assert(create.drop_last() =~= Seq::<Op>::empty());
        assert(run_ops(files, create.drop_last()) == Some(files));
        assert(run_ops(files, create) == Some(files));
        lemma_merge_entries_prefix_is_transfers_prefix(files, source, dest, entries, cut, replace, m - 1);
        let m2 = choose|m2: int| 0 <= m2 <= t.len()
            && run_ops(files, body.take(m - 1)) == run_ops(files, #[trigger] t.take(m2));
        assert(run_ops(files, ops.take(m)) == run_ops(files, t.take(m2)));
    }
}

proof fn lemma_merge_entries_prefix_is_transfers_prefix(
    files: Map<Seq<char>, Seq<u8>>,
    source: Seq<char>,
    dest: Seq<char>,
    entries: Seq<SourceEntry>,
    cut: bool,
    replace: bool,
    m: int,
)
    requires
        0 <= m <= merge_entries_ops(source, dest, entries, cut, replace).len(),
    ensures
        exists|m2: int| 0 <= m2 <= transfers_ops(merge_entries_files(source, dest, entries, replace), cut).len()
            && run_ops(files, merge_entries_ops(source, dest, entries, cut, replace).take(m)) == run_ops(
                files,
                #[trigger] transfers_ops(merge_entries_files(source, dest, entries, replace), cut).take(m2),
            ),
    decreases entries, 0nat,
{
    let ops = merge_entries_ops(source, dest, entries, cut, replace);
    let pairs = merge_entries_files(source, dest, entries, replace);
    let t = transfers_ops(pairs, cut);
    if entries.len() == 0 {
        assert(ops.take(m) =~= t.take(0));
    } else {
        let e = entries[0];
        let from = joined(source, e.name@);
        let to = joined(dest, e.name@);
        let rest_ops = merge_entries_ops(source, dest, entries.drop_first(), cut, replace);
        let rest_pairs = merge_entries_files(source, dest, entries.drop_first(), replace);
        let sub_ops = merge_dir_ops(from, to, e.children@, cut, replace);
        let prune = if cut { seq![Op::PruneDir(from)] } else { Seq::<Op>::empty() };
        let first_ops = if e.is_dir {
            sub_ops + prune
        } else if e.target_exists {
            if replace { transfer_ops(from, to, cut) } else { seq![] }
        } else {
            transfer_ops(from, to, cut)
        };
        let first_pairs = if e.is_dir {
            merge_dir_files(from, to, e.children@, replace)
        } else if !e.target_exists || replace {
            seq![(from, to)]
        } else {
            seq![]
        };
        let tf = transfers_ops(first_pairs, cut);
        let tr = transfers_ops(rest_pairs, cut);
        assert(ops == first_ops + rest_ops);
        lemma_transfers_concat(first_pairs, rest_pairs, cut);
        assert(t == tf + tr);
        // Running the first entry's operations is running its transfers.
        if e.is_dir {
            lemma_merge_runs_transfers(files, from, to, e.children@, cut, replace);
            lemma_run_concat(files, sub_ops, prune);
            match run_ops(files, sub_ops) {
                Some(g) => {
                    if cut {
                        assert(prune.drop_last() =~= Seq::<Op>::empty());
                        assert(run_ops(g, prune.drop_last()) == Some(g));
                        assert(prune.last() == Op::PruneDir(from));
                    }
                    assert(run_ops(g, prune) == Some(g));
                },
                None => {},
            }
        } else if !e.target_exists || replace {
            lemma_transfers_single(from, to, cut);
        } else {
            assert(tf =~= Seq::<Op>::empty());
            assert(first_ops =~= tf);
        }
        assert(run_ops(files, first_ops) == run_ops(files, tf));
        if m <= first_ops.len() {
            lemma_prefix_of_concat(first_ops, rest_ops, m);
            if e.is_dir {
                if m <= sub_ops.len() {
                    lemma_prefix_of_concat(sub_ops, prune, m);
                    lemma_merge_prefix_is_transfers_prefix(files, from, to, e.children@, cut, replace, m);
                    let m2 = choose|m2: int| 0 <= m2 <= tf.len()
                        && run_ops(files, sub_ops.take(m)) == run_ops(files, #[trigger] tf.take(m2));
                    lemma_prefix_of_concat(tf, tr, m2);
                    assert(run_ops(files, ops.take(m)) == run_ops(files, t.take(m2)));
                } else {
                    assert(first_ops.take(m) =~= first_ops);
                    lemma_prefix_of_concat(tf, tr, tf.len() as int);
                    assert(tf.take(tf.len() as int) =~= tf);
                    assert(run_ops(files, ops.take(m)) == run_ops(files, t.take(tf.len() as int)));
                }
            } else {
                assert(first_ops == tf);
                lemma_prefix_of_concat(tf, tr, m);
                assert(run_ops(files, ops.take(m)) == run_ops(files, t.take(m)));
            }
        } else {
            let k = m - first_ops.len();
            lemma_prefix_past_concat(first_ops, rest_ops, m);
            lemma_run_concat(files, first_ops, rest_ops.take(k));
            match run_ops(files, first_ops) {
                Some(g) => {
                    lemma_merge_entries_prefix_is_transfers_prefix(g, source, dest, entries.drop_first(), cut, replace, k);
                    let m3 = choose|m3: int| 0 <= m3 <= tr.len()
                        && run_ops(g, rest_ops.take(k)) == run_ops(g, #[trigger] tr.take(m3));
                    lemma_prefix_past_concat(tf, tr, tf.len() + m3);
                    lemma_run_concat(files, tf, tr.take(m3));
                    assert(run_ops(files, ops.take(m)) == run_ops(files, t.take(tf.len() + m3)));
                },
                None => {
                    lemma_prefix_past_concat(tf, tr, tf.len() as int);
                    assert(tr.take(0) =~= Seq::<Op>::empty());
                    assert(tf + tr.take(0) =~= tf);
                    assert(run_ops(files, ops.take(m)) == run_ops(files, t.take(tf.len() as int)));
                },
            }
        }
    }
}

/// A merge interrupted anywhere, on a file system where every file of the tree is there
/// and no destination path is also a source path nor shared by two files, loses no file:
/// whatever number of its operations has been carried out, every file that the merge
/// transfers still has its contents at its source or at its destination.
pub proof fn lemma_merge_interrupted_loses_nothing(
    files: Map<Seq<char>, Seq<u8>>,
    source: Seq<char>,
    dest: Seq<char>,
    entries: Seq<SourceEntry>,
    cut: bool,
    replace: bool,
    m: int,
)
    requires
        transfers_separate(files, merge_dir_files(source, dest, entries, replace), cut),
        destinations_distinct(merge_dir_files(source, dest, entries, replace)),
        0 <= m <= merge_dir_ops(source, dest, entries, cut, replace).len(),
    ensures
        run_ops(files, merge_dir_ops(source, dest, entries, cut, replace).take(m)) matches Some(now)
            && nothing_lost(files, now, merge_dir_files(source, dest, entries, replace)),
{
    let pairs = merge_dir_files(source, dest, entries, replace);
    let t = transfers_ops(pairs, cut);
    lemma_merge_prefix_is_transfers_prefix(files, source, dest, entries, cut, replace, m);
    let m2 = choose|m2: int| 0 <= m2 <= t.len()
        && run_ops(files, merge_dir_ops(source, dest, entries, cut, replace).take(m))
            == run_ops(files, #[trigger] t.take(m2));
    lemma_transfers_prefix_loses_nothing(files, pairs, cut, m2);
}

/// What a merge transfers of a folder's own files: each file whose destination is free,
/// and, when `replace`, each file whose destination is taken too, goes from the source
/// folder to the same name in the destination folder.
pub proof fn lemma_merge_transfers_files(source: Seq<char>, dest: Seq<char>, entries: Seq<SourceEntry>, replace: bool, k: int)
    requires
        0 <= k < entries.len(),
        !entries[k].is_dir,
        !entries[k].target_exists || replace,
    ensures
        merge_dir_files(source, dest, entries, replace).contains(
            (joined(source, entries[k].name@), joined(dest, entries[k].name@)),
        ),
    decreases k,
{
    let first = if entries[0].is_dir {
        merge_dir_files(joined(source, entries[0].name@), joined(dest, entries[0].name@), entries[0].children@, replace)
    } else if !entries[0].target_exists || replace {
        seq![(joined(source, entries[0].name@), joined(dest, entries[0].name@))]
    } else {
        seq![]
    };
    let rest = merge_entries_files(source, dest, entries.drop_first(), replace);
    assert(merge_dir_files(source, dest, entries, replace) == first + rest);
    let pair = (joined(source, entries[k].name@), joined(dest, entries[k].name@));
    if k == 0 {
        assert((first + rest)[0] == pair);
    } else {
        lemma_merge_transfers_files(source, dest, entries.drop_first(), replace, k - 1);
        assert(entries.drop_first()[k - 1] == entries[k]);
        let j = choose|j: int| 0 <= j < rest.len() && rest[j] == pair;
        assert((first + rest)[first.len() + j] == pair);
    }
}

} // verus!
