//! Pasting copied or cut entries into a folder, one source after the other: where each
//! one lands and what has to be done to put it there, and which files a merge would
//! overwrite. The caller reads each source just before pasting it, so what it notes of
//! the destination includes what the sources before it put there; where a copy needs
//! a free name, the caller asks the file system about each candidate (see
//! `start_name_search`).

use vstd::prelude::*;
use crate::text::chars_of;
use crate::paths::{file_name_of, joined, parent_of, same_path, path_file_name, path_join, path_parent, paths_equal};
use crate::fsplan::{
    FsOp, Op, SourceEntry, copy_dir_ops, copy_dir_plan, is_removal, lemma_copy_merge_removes_nothing,
    lemma_copy_removes_nothing, lemma_existing_file_conflicts, merge_conflicts, merge_dir_ops, merge_dir_plan, ops_view,
    plan_merge_conflicts,
};
use crate::fsmodel::{lemma_merge_dir_effect, lemma_run_concat, merge_dir_files, run_ops, transferred, transfers_separate};

verus! {

/// What happens to a file that already exists where a merged file would go.
#[derive(PartialEq, Eq, Structural, Clone, Copy)]
pub enum ConflictResolution {
    /// The pasted file replaces it.
    Replace,
    /// It stays; the pasted file is left where it was.
    Skip,
}

/// "replace" asks for `Replace`; anything else, or nothing, means `Skip`.
pub open spec fn resolution_of(choice: Option<Seq<char>>) -> ConflictResolution {
    if choice == Some(seq!['r', 'e', 'p', 'l', 'a', 'c', 'e']) {
        ConflictResolution::Replace
    } else {
        ConflictResolution::Skip
    }
}

/// The conflict resolution that the user's choice names (see `resolution_of`).
pub fn conflict_resolution(choice: &Option<String>) -> (res: ConflictResolution)
    ensures
        res == resolution_of(choice.deep_view()),
{
    match choice {
        Some(text) => {
            let c = chars_of(text.as_str());
            if c.len() == 7 && c[0] == 'r' && c[1] == 'e' && c[2] == 'p' && c[3] == 'l' && c[4] == 'a'
                && c[5] == 'c' && c[6] == 'e' {
                assert(c@ =~= seq!['r', 'e', 'p', 'l', 'a', 'c', 'e']);
                ConflictResolution::Replace
            } else {
                assert(c@ != seq!['r', 'e', 'p', 'l', 'a', 'c', 'e']);
                ConflictResolution::Skip
            }
        },
        None => ConflictResolution::Skip,
    }
}

/// A path to paste, as read from the file system just before it is pasted.
pub struct PasteSource {
    pub path: String,
    /// Whether the path is a folder (links followed).
    pub is_dir: bool,
    /// Whether the destination folder has a folder under the source's name, as the file
    /// system answered (links followed).
    pub target_is_dir: bool,
    /// A folder's entries in the order read, each noted against the same path under
    /// the folder of the same name in the destination (when there is one).
    pub entries: Vec<SourceEntry>,
}

/// Whether `path` lies directly in `dir`: its parent is the same path.
pub open spec fn lies_directly_in(path: Seq<char>, dir: Seq<char>) -> bool {
    parent_of(path) matches Some(parent) && same_path(parent, dir)
}

/// What a paste does with one source.
pub enum Action {
    /// A cut pasted back into its own folder: nothing moves.
    Stay,
    /// Rename the source to the target; should that fail, carry out the operations.
    Rename(Seq<Op>),
    /// Carry out the operations.
    Run(Seq<Op>),
}

/// One source of a paste: where it lands, and how.
pub struct Step {
    pub source: Seq<char>,
    pub target: Seq<char>,
    pub action: Action,
}

/// How a paste goes about one source.
pub enum Plan {
    /// The source has no file name: it is passed over.
    Skip,
    /// The step is settled.
    Ready(Step),
    /// The source is copied (or moved) under the first free name that is based on this
    /// one (see `start_name_search`).
    NeedsName(Seq<char>),
}

/// How a paste goes about the source `src` in `dest_dir`:
/// - A cut whose source lies in the destination already stays where it is.
/// - A folder from elsewhere whose name the destination has as a folder merges into it
///   (see `merge_dir_ops`); in a cut, the source folder is pruned afterwards if empty.
///   A folder copied into its own parent is not merged into itself: it is copied.
/// - Anything else lands under the first free name (see `copy_step`).
pub open spec fn source_plan(dest_dir: Seq<char>, src: PasteSource, cut: bool, replace: bool) -> Plan {
    let path = src.path@;
    match file_name_of(path) {
        None => Plan::Skip,
        Some(name) => {
            if cut && lies_directly_in(path, dest_dir) {
                Plan::Ready(Step { source: path, target: path, action: Action::Stay })
            } else if src.is_dir && src.target_is_dir && !lies_directly_in(path, dest_dir) {
                let target = joined(dest_dir, name);
                let ops = merge_dir_ops(path, target, src.entries@, cut, replace)
                    + (if cut { seq![Op::PruneDir(path)] } else { seq![] });
                Plan::Ready(Step { source: path, target, action: Action::Run(ops) })
            } else {
                Plan::NeedsName(name)
            }
        },
    }
}

/// Putting `src` at the free path `target`: a cut is renamed there, or, if renaming
/// fails, copied and then removed; a copy is copied.
pub open spec fn copy_step(src: PasteSource, target: Seq<char>, cut: bool) -> Step {
    let path = src.path@;
    let copy_ops = if src.is_dir { copy_dir_ops(path, target, src.entries@) } else { seq![Op::CopyFile(path, target)] };
    let action = if cut {
        Action::Rename(copy_ops + (if src.is_dir { seq![Op::RemoveDirAll(path)] } else { seq![Op::RemoveFile(path)] }))
    } else {
        Action::Run(copy_ops)
    };
    Step { source: path, target, action }
}

/// The steps of a whole paste of `sources`, in order, where `targets[i]` is the free
/// path that the search found for the source at `i` when it needed one.
pub open spec fn paste_run(
    dest_dir: Seq<char>,
    sources: Seq<PasteSource>,
    targets: Seq<Seq<char>>,
    cut: bool,
    replace: bool,
) -> Seq<Step>
    decreases sources.len(),
{
    if sources.len() == 0 {
        seq![]
    } else {
        let k = sources.len() - 1;
        let before = paste_run(dest_dir, sources.drop_last(), targets, cut, replace);
        match source_plan(dest_dir, sources[k], cut, replace) {
            Plan::Skip => before,
            Plan::Ready(step) => before.push(step),
            Plan::NeedsName(_) => before.push(copy_step(sources[k], targets[k], cut)),
        }
    }
}

/// A paste that copies (rather than cuts) leaves its sources alone: every step of the
/// whole paste only runs operations, and none of them removes anything.
pub proof fn lemma_copy_paste_keeps_sources(
    dest_dir: Seq<char>,
    sources: Seq<PasteSource>,
    targets: Seq<Seq<char>>,
    replace: bool,
)
    ensures
        forall|i: int| 0 <= i < paste_run(dest_dir, sources, targets, false, replace).len() ==> {
            &&& #[trigger] paste_run(dest_dir, sources, targets, false, replace)[i].action matches Action::Run(ops)
            &&& forall|k: int| 0 <= k < ops.len() ==> !is_removal(#[trigger] ops[k])
        },
    decreases sources.len(),
{
    if sources.len() > 0 {
        let k = sources.len() - 1;
        lemma_copy_paste_keeps_sources(dest_dir, sources.drop_last(), targets, replace);
        let before = paste_run(dest_dir, sources.drop_last(), targets, false, replace);
        let src = sources[k];
        let path = src.path@;
        let run = paste_run(dest_dir, sources, targets, false, replace);
        match source_plan(dest_dir, src, false, replace) {
            Plan::Skip => {},
            Plan::Ready(step) => {
                let name = file_name_of(path)->0;
                let target = joined(dest_dir, name);
                lemma_copy_merge_removes_nothing(path, target, src.entries@, replace);
                let ops = merge_dir_ops(path, target, src.entries@, false, replace);
                assert(ops + Seq::<Op>::empty() =~= ops);
                assert forall|i: int| 0 <= i < run.len() implies {
                    &&& #[trigger] run[i].action matches Action::Run(ops)
                    &&& forall|k: int| 0 <= k < ops.len() ==> !is_removal(#[trigger] ops[k])
                } by {
                    if i < before.len() {
                        assert(run[i] == before[i]);
                    }
                }
            },
            Plan::NeedsName(_) => {
                if src.is_dir {
                    lemma_copy_removes_nothing(path, targets[k], src.entries@);
                }
                assert forall|i: int| 0 <= i < run.len() implies {
                    &&& #[trigger] run[i].action matches Action::Run(ops)
                    &&& forall|k: int| 0 <= k < ops.len() ==> !is_removal(#[trigger] ops[k])
                } by {
                    if i < before.len() {
                        assert(run[i] == before[i]);
                    }
                }
            },
        }
    }
}

/// The conflicts that pasting `sources` into `dest_dir` meets: for each folder from
/// elsewhere whose name the destination has as a folder too, the files that already
/// exist there.
pub open spec fn paste_conflicts(dest_dir: Seq<char>, sources: Seq<PasteSource>) -> Seq<Seq<char>>
    decreases sources.len(),
{
    if sources.len() == 0 {
        seq![]
    } else {
        let src = sources.last();
        let rest = paste_conflicts(dest_dir, sources.drop_last());
        match file_name_of(src.path@) {
            Some(name) => if src.is_dir && src.target_is_dir && !lies_directly_in(src.path@, dest_dir) {
                rest + merge_conflicts(joined(dest_dir, name), src.entries@)
            } else {
                rest
            },
            None => rest,
        }
    }
}

/// What a paste does with one source (see `Action`).
pub enum PasteAction {
    Stay,
    Rename { fallback: Vec<FsOp> },
    Run { ops: Vec<FsOp> },
}

/// One source of a paste: where it lands, and what to do to put it there.
pub struct PasteStep {
    pub source: String,
    pub target: String,
    pub action: PasteAction,
}

impl View for PasteStep {
    type V = Step;

    open spec fn view(&self) -> Step {
        Step {
            source: self.source@,
            target: self.target@,
            action: match &self.action {
                PasteAction::Stay => Action::Stay,
                PasteAction::Rename { fallback } => Action::Rename(ops_view(fallback@)),
                PasteAction::Run { ops } => Action::Run(ops_view(ops@)),
            },
        }
    }
}

/// How a paste goes about one source (see `Plan`).
pub enum SourcePlan {
    Skip,
    Ready(PasteStep),
    NeedsName(String),
}

/// Whether `path` lies directly in `dest_dir` (its parent is the same path).
fn lies_in(path: &str, dest_dir: &str) -> (res: bool)
    ensures
        res == lies_directly_in(path@, dest_dir@),
{
    match path_parent(path) {
        Some(parent) => paths_equal(parent.as_str(), dest_dir),
        None => false,
    }
}

/// How pasting the source `src` into `dest_dir` goes (see `source_plan`), with the
/// user's choice for conflicts (see `resolution_of`).
pub fn plan_source(src: &PasteSource, dest_dir: &str, cut: bool, conflict_resolution_choice: &Option<String>) -> (plan: SourcePlan)
    ensures
        match source_plan(
            dest_dir@,
            *src,
            cut,
            resolution_of(conflict_resolution_choice.deep_view()) == ConflictResolution::Replace,
        ) {
            Plan::Skip => plan is Skip,
            Plan::Ready(step) => plan matches SourcePlan::Ready(s) && s@ == step,
            Plan::NeedsName(name) => plan matches SourcePlan::NeedsName(n) && n@ == name,
        },
{
    let replace = conflict_resolution(conflict_resolution_choice) == ConflictResolution::Replace;
    let name = match path_file_name(src.path.as_str()) {
        Some(n) => n,
        None => return SourcePlan::Skip,
    };
    let in_dest = lies_in(src.path.as_str(), dest_dir);
    if cut && in_dest {
        return SourcePlan::Ready(PasteStep { source: src.path.clone(), target: src.path.clone(), action: PasteAction::Stay });
    }
    if src.is_dir && src.target_is_dir && !in_dest {
        let target = path_join(dest_dir, name.as_str());
        let mut ops: Vec<FsOp> = Vec::new();
        assert(ops_view(ops@) =~= Seq::<Op>::empty());
        merge_dir_plan(src.path.as_str(), target.as_str(), &src.entries, cut, replace, &mut ops);
        if cut {
            let ghost before = ops_view(ops@);
            ops.push(FsOp::PruneDir { path: src.path.clone() });
            assert(ops_view(ops@) =~= before + seq![Op::PruneDir(src.path@)]);
        } else {
            assert(ops_view(ops@) =~= ops_view(ops@) + Seq::<Op>::empty());
        }
        return SourcePlan::Ready(PasteStep { source: src.path.clone(), target, action: PasteAction::Run { ops } });
    }
    SourcePlan::NeedsName(name)
}

/// The step of putting `src` at the free path `target` (see `copy_step`).
pub fn copy_to(src: &PasteSource, target: &str, cut: bool) -> (step: PasteStep)
    ensures
        step@ == copy_step(*src, target@, cut),
{
    let mut ops: Vec<FsOp> = Vec::new();
    assert(ops_view(ops@) =~= Seq::<Op>::empty());
    if src.is_dir {
        copy_dir_plan(src.path.as_str(), target, &src.entries, &mut ops);
    } else {
        ops.push(FsOp::CopyFile { from: src.path.clone(), to: target.to_owned() });
        assert(ops_view(ops@) =~= seq![Op::CopyFile(src.path@, target@)]);
    }
    let ghost copy_ops = ops_view(ops@);
    let action = if cut {
        if src.is_dir {
            ops.push(FsOp::RemoveDirAll { path: src.path.clone() });
            assert(ops_view(ops@) =~= copy_ops + seq![Op::RemoveDirAll(src.path@)]);
        } else {
            ops.push(FsOp::RemoveFile { path: src.path.clone() });
            assert(ops_view(ops@) =~= copy_ops + seq![Op::RemoveFile(src.path@)]);
        }
        PasteAction::Rename { fallback: ops }
    } else {
        PasteAction::Run { ops }
    };
    PasteStep { source: src.path.clone(), target: target.to_owned(), action }
}

/// The destination paths of the files that pasting `sources` into `dest_dir` would find
/// already there (see `paste_conflicts`).
pub fn scan_paste_conflicts(sources: &Vec<PasteSource>, dest_dir: &str) -> (conflicts: Vec<String>)
    ensures
        conflicts.deep_view() == paste_conflicts(dest_dir@, sources@),
{
    let mut conflicts: Vec<String> = Vec::new();
    let mut i: usize = 0;
    while i < sources.len()
        invariant
            i <= sources@.len(),
            conflicts.deep_view() == paste_conflicts(dest_dir@, sources@.take(i as int)),
        decreases sources@.len() - i,
    {
        assert(sources@.take(i + 1).drop_last() =~= sources@.take(i as int));
        assert(sources@.take(i + 1).last() == sources@[i as int]);
        let src = &sources[i];
        match path_file_name(src.path.as_str()) {
            Some(name) => {
                if src.is_dir && src.target_is_dir && !lies_in(src.path.as_str(), dest_dir) {
                    let target = path_join(dest_dir, name.as_str());
                    plan_merge_conflicts(target.as_str(), &src.entries, &mut conflicts);
                }
            },
            None => {},
        }
        i = i + 1;
    }
    assert(sources@.take(i as int) =~= sources@);
    conflicts
}

/// A merge step carries out the user's conflict choice whatever the cut flag: on a file
/// model where the transfers do not disturb each other, running its operations
/// transfers exactly the files that the choice calls for (see `merge_dir_files`: with
/// "replace", every file whose destination is taken too), removing them from the source
/// in a cut, and leaves every other file as it was.
pub proof fn lemma_merge_step_carries_out_choice(
    files: Map<Seq<char>, Seq<u8>>,
    dest_dir: Seq<char>,
    src: PasteSource,
    cut: bool,
    replace: bool,
)
    requires
        file_name_of(src.path@) is Some,
        src.is_dir,
        src.target_is_dir,
        !lies_directly_in(src.path@, dest_dir),
        transfers_separate(
            files,
            merge_dir_files(src.path@, joined(dest_dir, file_name_of(src.path@)->0), src.entries@, replace),
            cut,
        ),
    ensures
        source_plan(dest_dir, src, cut, replace) matches Plan::Ready(step) && {
            &&& step.source == src.path@
            &&& step.target == joined(dest_dir, file_name_of(src.path@)->0)
            &&& step.action matches Action::Run(ops) && run_ops(files, ops) == Some(transferred(
                files,
                merge_dir_files(src.path@, joined(dest_dir, file_name_of(src.path@)->0), src.entries@, replace),
                cut,
            ))
        },
{
    let path = src.path@;
    let target = joined(dest_dir, file_name_of(path)->0);
    let merge = merge_dir_ops(path, target, src.entries@, cut, replace);
    let prune = if cut { seq![Op::PruneDir(path)] } else { Seq::<Op>::empty() };
    lemma_merge_dir_effect(files, path, target, src.entries@, cut, replace);
    lemma_run_concat(files, merge, prune);
    let g = transferred(files, merge_dir_files(path, target, src.entries@, replace), cut);
    if cut {
        assert(prune.drop_last() =~= Seq::<Op>::empty());
        assert(run_ops(g, prune.drop_last()) == Some(g));
        assert(prune.last() == Op::PruneDir(path));
    }
    assert(run_ops(g, prune) == Some(g));
}

/// The conflicts of a paste are those of its sources, each on its own, one after the
/// other: scanning two lists of sources one after the other gives what scanning each
/// gives, together.
pub proof fn lemma_conflicts_of_sources_add_up(dest_dir: Seq<char>, first: Seq<PasteSource>, second: Seq<PasteSource>)
    ensures
        paste_conflicts(dest_dir, first + second) == paste_conflicts(dest_dir, first) + paste_conflicts(dest_dir, second),
    decreases second.len(),
{
    if second.len() == 0 {
        assert(first + second =~= first);
        assert(paste_conflicts(dest_dir, first) + paste_conflicts(dest_dir, second) =~= paste_conflicts(dest_dir, first));
    } else {
        lemma_conflicts_of_sources_add_up(dest_dir, first, second.drop_last());
        assert((first + second).drop_last() =~= first + second.drop_last());
        assert((first + second).last() == second.last());
        let a = paste_conflicts(dest_dir, first);
        let b = paste_conflicts(dest_dir, second.drop_last());
        let src = second.last();
        match file_name_of(src.path@) {
            Some(name) => if src.is_dir && src.target_is_dir && !lies_directly_in(src.path@, dest_dir) {
                assert(a + b + merge_conflicts(joined(dest_dir, name), src.entries@)
                    =~= a + (b + merge_conflicts(joined(dest_dir, name), src.entries@)));
            },
            None => {},
        }
    }
}

/// The conflicts of one source: for a folder from elsewhere whose name the destination
/// has as a folder, the files of the merge whose destination exists (each file of the
/// folder itself that exists at its destination among them); none for anything else.
pub proof fn lemma_conflicts_of_one_source(dest_dir: Seq<char>, src: PasteSource)
    ensures
        paste_conflicts(dest_dir, seq![src]) == (match file_name_of(src.path@) {
            Some(name) => if src.is_dir && src.target_is_dir && !lies_directly_in(src.path@, dest_dir) {
                merge_conflicts(joined(dest_dir, name), src.entries@)
            } else {
                Seq::<Seq<char>>::empty()
            },
            None => Seq::<Seq<char>>::empty(),
        }),
        forall|k: int| 0 <= k < src.entries@.len() && !src.entries@[k].is_dir && src.entries@[k].target_exists
            && src.is_dir && src.target_is_dir && !lies_directly_in(src.path@, dest_dir) && file_name_of(src.path@) is Some
            ==> paste_conflicts(dest_dir, seq![src]).contains(
                joined(joined(dest_dir, file_name_of(src.path@)->0), #[trigger] src.entries@[k].name@),
            ),
{
    let one = seq![src];
    assert(one.drop_last() =~= Seq::<PasteSource>::empty());
    assert(one.last() == src);
    assert(paste_conflicts(dest_dir, one.drop_last()) =~= Seq::<Seq<char>>::empty());
    match file_name_of(src.path@) {
        Some(name) => {
            let m = merge_conflicts(joined(dest_dir, name), src.entries@);
            assert(Seq::<Seq<char>>::empty() + m =~= m);
            assert forall|k: int| 0 <= k < src.entries@.len() && !src.entries@[k].is_dir && src.entries@[k].target_exists
                && src.is_dir && src.target_is_dir && !lies_directly_in(src.path@, dest_dir)
                implies paste_conflicts(dest_dir, one).contains(joined(joined(dest_dir, name), #[trigger] src.entries@[k].name@)) by {
                lemma_existing_file_conflicts(joined(dest_dir, name), src.entries@, k);
            }
        },
        None => {},
    }
}

} // verus!
