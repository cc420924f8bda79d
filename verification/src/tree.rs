//! Folder statistics: how many files a folder holds and how many bytes they take,
//! counted through all its sub-folders, which are listed largest first.

use vstd::prelude::*;
use crate::paths::{file_name_of, path_file_name};
use crate::order::{is_stable_selection, precedes, text_order};

verus! {

/// A folder with its statistics.
pub struct FolderNode {
    pub name: String,
    pub path: String,
    /// The files in the folder and all its sub-folders.
    pub file_count: u64,
    /// The bytes those files take.
    pub total_size: u64,
    /// The sub-folders, largest first.
    pub children: Vec<FolderNode>,
}

/// One entry met while scanning a folder, in the order read.
pub enum ScanItem {
    /// A file of the given size in bytes.
    File(u64),
    /// A sub-folder, already scanned.
    Folder(FolderNode),
}

/// The files that an item counts: itself if a file, a sub-folder's count otherwise.
pub open spec fn item_files(item: ScanItem) -> nat {
    match item {
        ScanItem::File(_) => 1,
        ScanItem::Folder(node) => node.file_count as nat,
    }
}

/// The bytes that an item counts.
pub open spec fn item_bytes(item: ScanItem) -> nat {
    match item {
        ScanItem::File(len) => len as nat,
        ScanItem::Folder(node) => node.total_size as nat,
    }
}

/// The files of all the items.
pub open spec fn files_total(items: Seq<ScanItem>) -> nat
    decreases items.len(),
{
    if items.len() == 0 { 0 } else { files_total(items.drop_last()) + item_files(items.last()) }
}

/// The bytes of all the items.
pub open spec fn bytes_total(items: Seq<ScanItem>) -> nat
    decreases items.len(),
{
    if items.len() == 0 { 0 } else { bytes_total(items.drop_last()) + item_bytes(items.last()) }
}

/// The sub-folders among the items, in the order read.
pub open spec fn folders_of(items: Seq<ScanItem>) -> Seq<FolderNode>
    decreases items.len(),
{
    if items.len() == 0 {
        seq![]
    } else {
        match items.last() {
            ScanItem::Folder(node) => folders_of(items.drop_last()).push(node),
            ScanItem::File(_) => folders_of(items.drop_last()),
        }
    }
}

/// The sort key that lists larger folders first.
pub open spec fn size_key(node: FolderNode) -> (u64, Seq<char>) {
    ((u64::MAX - node.total_size) as u64, seq![])
}

/// `order` lists every one of `nodes` once, larger folders first, folders of equal
/// size in their order in `nodes`.
pub open spec fn largest_first(nodes: Seq<FolderNode>, order: Seq<usize>) -> bool {
    is_stable_selection(nodes.map_values(|n: FolderNode| size_key(n)), |i: int| true, order)
}

/// The name shown for a folder: its file name, or the whole path when it has none.
pub open spec fn folder_name(path: Seq<char>) -> Seq<char> {
    match file_name_of(path) {
        Some(name) => name,
        None => path,
    }
}

/// The sub-folders are listed largest first.
pub open spec fn largest_first_children(nodes: Seq<FolderNode>) -> bool {
    forall|p: int, q: int| 0 <= p < q < nodes.len() ==> (#[trigger] nodes[p]).total_size >= (#[trigger] nodes[q]).total_size
}

/// At every level of the tree under `node`, the sub-folders are listed largest first.
pub open spec fn sorted_tree(node: FolderNode) -> bool
    decreases node, 1nat,
{
    largest_first_children(node.children@) && sorted_forest(node.children@)
}

/// Every one of `nodes` is sorted at every level (see `sorted_tree`).
pub open spec fn sorted_forest(nodes: Seq<FolderNode>) -> bool
    decreases nodes, 0nat,
{
    if nodes.len() == 0 {
        true
    } else {
        sorted_tree(nodes[0]) && sorted_forest(nodes.drop_first())
    }
}

proof fn lemma_sorted_forest(nodes: Seq<FolderNode>)
    ensures
        sorted_forest(nodes) <==> forall|k: int| 0 <= k < nodes.len() ==> sorted_tree(#[trigger] nodes[k]),
    decreases nodes.len(),
{
    if nodes.len() > 0 {
        lemma_sorted_forest(nodes.drop_first());
        if forall|k: int| 0 <= k < nodes.len() ==> sorted_tree(#[trigger] nodes[k]) {
            assert forall|k: int| 0 <= k < nodes.drop_first().len() implies sorted_tree(#[trigger] nodes.drop_first()[k]) by {
                assert(nodes.drop_first()[k] == nodes[k + 1]);
            }
        }
        if sorted_forest(nodes) {
            assert forall|k: int| 0 <= k < nodes.len() implies sorted_tree(#[trigger] nodes[k]) by {
                if k > 0 {
                    assert(nodes[k] == nodes.drop_first()[k - 1]);
                }
            }
        }
    }
}

proof fn lemma_totals_grow(items: Seq<ScanItem>, i: int)
    requires
        0 <= i <= items.len(),
    ensures
        files_total(items.take(i)) <= files_total(items),
        bytes_total(items.take(i)) <= bytes_total(items),
    decreases items.len() - i,
{
    if i < items.len() {
        lemma_totals_grow(items, i + 1);
        assert(items.take(i + 1).drop_last() =~= items.take(i));
    } else {
        assert(items.take(i) =~= items);
    }
}

proof fn lemma_folders_prefix(items: Seq<ScanItem>, i: int)
    requires
        0 <= i <= items.len(),
    ensures
        folders_of(items.take(i)).len() <= folders_of(items).len(),
        folders_of(items).take(folders_of(items.take(i)).len() as int) =~= folders_of(items.take(i)),
    decreases items.len() - i,
{
    if i < items.len() {
        lemma_folders_prefix(items, i + 1);
        assert(items.take(i + 1).drop_last() =~= items.take(i));
        let a = folders_of(items.take(i));
        let b = folders_of(items.take(i + 1));
        let f = folders_of(items);
        assert(b.take(a.len() as int) =~= a);
        assert(f.take(a.len() as int) =~= b.take(a.len() as int));
    } else {
        assert(items.take(i) =~= items);
    }
}

/// Larger folders first; folders of equal size in the order read.
proof fn lemma_size_precedes(nodes: Seq<FolderNode>)
    ensures
        forall|i: int, j: int| 0 <= i < nodes.len() && 0 <= j < nodes.len() ==>
            (precedes(nodes.map_values(|n: FolderNode| size_key(n)), i, j)
            <==> (nodes[i].total_size > nodes[j].total_size || (nodes[i].total_size == nodes[j].total_size && i < j))),
{
    assert(text_order(Seq::<char>::empty(), Seq::<char>::empty()) == 0);
}

/// `node` holds the statistics of the folder at `path` whose entries, as read, are
/// `items`: the files of the folder and of its sub-folders counted and their sizes added
/// up, and the sub-folders listed largest first, those of equal size in the order read.
pub open spec fn node_of_items(node: FolderNode, path: Seq<char>, items: Seq<ScanItem>) -> bool {
    &&& node.name@ == folder_name(path)
    &&& node.path@ == path
    &&& node.file_count == files_total(items)
    &&& node.total_size == bytes_total(items)
    &&& exists|order: Seq<usize>| {
        &&& #[trigger] largest_first(folders_of(items), order)
        &&& node.children@.len() == order.len()
        &&& forall|k: int| 0 <= k < order.len() ==> node.children@[k] == folders_of(items)[order[k] as int]
    }
}

/// The statistics of the folder at `path` from its entries, as read: the files of the
/// folder and of its sub-folders counted and their sizes added up, the sub-folders
/// listed largest first, those of equal size in the order read. When every sub-folder
/// is sorted at every level, so is the result: a walk that builds each level with this
/// function lists sub-folders largest first throughout the tree.
pub fn folder_node(path: &str, items: Vec<ScanItem>) -> (node: FolderNode)
    requires
        files_total(items@) <= u64::MAX,
        bytes_total(items@) <= u64::MAX,
    ensures
        node_of_items(node, path@, items@),
        largest_first_children(node.children@),
        (forall|k: int| 0 <= k < folders_of(items@).len() ==> sorted_tree(#[trigger] folders_of(items@)[k]))
            ==> sorted_tree(node),
{
    let name = match path_file_name(path) {
        Some(n) => n,
        None => path.to_owned(),
    };
    let ghost all = items@;
    let ghost folders = folders_of(all);
    let ghost keys = folders.map_values(|n: FolderNode| size_key(n));
    let mut file_count: u64 = 0;
    let mut total_size: u64 = 0;
    let mut children: Vec<FolderNode> = Vec::new();
    let ghost mut order: Seq<usize> = seq![];
    let mut seen: usize = 0;
    let mut i: usize = 0;
    let n = items.len();
    for item in it: items
        invariant
            all.len() == n,
            seen <= i,
            it.seq() == all,
            i == it.index(),
            i <= all.len(),
            files_total(all) <= u64::MAX,
            bytes_total(all) <= u64::MAX,
            folders == folders_of(all),
            keys == folders.map_values(|n: FolderNode| size_key(n)),
            file_count == files_total(all.take(i as int)),
            total_size == bytes_total(all.take(i as int)),
            seen == folders_of(all.take(i as int)).len(),
            folders_of(all.take(i as int)) =~= folders.take(seen as int),
            seen <= folders.len(),
            children@.len() == order.len(),
            order.len() == seen,
            forall|k: int| 0 <= k < order.len() ==> #[trigger] order[k] < seen,
            forall|k: int| 0 <= k < order.len() ==> children@[k] == folders[order[k] as int],
            forall|x: int| 0 <= x < seen ==> #[trigger] order.contains(x as usize),
            forall|p: int, q: int| 0 <= p < q < order.len() ==> precedes(keys, #[trigger] order[p] as int, #[trigger] order[q] as int),
    {
        proof {
            lemma_totals_grow(all, i + 1);
            assert(all.take(i + 1).drop_last() =~= all.take(i as int));
            assert(all.take(i + 1).last() == item);
        }
        match item {
            ScanItem::File(len) => {
                file_count = file_count + 1;
                total_size = total_size + len;
            },
            ScanItem::Folder(child) => {
                file_count = file_count + child.file_count;
                total_size = total_size + child.total_size;
                proof {
                    lemma_folders_prefix(all, i + 1);
                    assert(folders_of(all.take(i + 1)) == folders_of(all.take(i as int)).push(child));
                    assert(folders.take(seen + 1) =~= folders_of(all.take(i + 1)));
                    assert(folders[seen as int] == folders.take(seen + 1)[seen as int]);
                    assert(folders[seen as int] == child);
                    lemma_size_precedes(folders);
                    assert forall|p: int, q: int| 0 <= p < q < children@.len() implies
                        (#[trigger] children@[p]).total_size >= (#[trigger] children@[q]).total_size by {
                        assert(precedes(keys, order[p] as int, order[q] as int));
                    }
                }
                // Insert after every folder at least as large: larger first, ties in order read.
                let mut lo: usize = 0;
                let mut hi: usize = children.len();
                while lo < hi
                    invariant
                        lo <= hi <= children@.len(),
                        forall|k: int| 0 <= k < lo ==> (#[trigger] children@[k]).total_size >= child.total_size,
                        forall|k: int| hi <= k < children@.len() ==> (#[trigger] children@[k]).total_size < child.total_size,
                        forall|p: int, q: int| 0 <= p < q < children@.len() ==> (#[trigger] children@[p]).total_size >= (#[trigger] children@[q]).total_size,
                    decreases hi - lo,
                {
                    let mid = lo + (hi - lo) / 2;
                    if children[mid].total_size >= child.total_size {
                        lo = mid + 1;
                    } else {
                        hi = mid;
                    }
                }
                let ghost before = children@;
                let ghost old_order = order;
                let ghost child_view = child;
                children.insert(lo, child);
                proof {
                    order = old_order.insert(lo as int, seen);
                    assert(children@ == before.insert(lo as int, child_view));
                    assert forall|k: int| 0 <= k < order.len() implies children@[k] == folders[order[k] as int] by {
                        if k < lo {
                            assert(children@[k] == before[k] && order[k] == old_order[k]);
                        } else if k > lo {
                            assert(children@[k] == before[k - 1] && order[k] == old_order[k - 1]);
                        }
                    }
                    assert forall|k: int| 0 <= k < order.len() implies #[trigger] order[k] < seen + 1 by {
                        if k < lo {
                            assert(order[k] == old_order[k]);
                        } else if k > lo {
                            assert(order[k] == old_order[k - 1]);
                        }
                    }
                    assert forall|x: int| 0 <= x < seen + 1 implies #[trigger] order.contains(x as usize) by {
                        if x == seen {
                            assert(order[lo as int] == x as usize);
                        } else {
                            assert(old_order.contains(x as usize));
                            let k = choose|k: int| 0 <= k < old_order.len() && old_order[k] == x as usize;
                            if k < lo {
                                assert(order[k] == x as usize);
                            } else {
                                assert(order[k + 1] == x as usize);
                            }
                        }
                    }
                    assert forall|p: int, q: int| 0 <= p < q < order.len() implies
                        precedes(keys, #[trigger] order[p] as int, #[trigger] order[q] as int) by {
                        if q < lo {
                            assert(order[p] == old_order[p] && order[q] == old_order[q]);
                        } else if q == lo {
                            assert(order[p] == old_order[p]);
                            assert(children@[p] == before[p]);
                            assert(old_order[p] < seen);
                            assert(folders[old_order[p] as int].total_size >= folders[seen as int].total_size);
                        } else if p < lo {
                            assert(order[p] == old_order[p] && order[q] == old_order[q - 1]);
                        } else if p == lo {
                            assert(order[q] == old_order[q - 1]);
                            assert(children@[q] == before[q - 1]);
                            assert(folders[old_order[q - 1] as int].total_size < folders[seen as int].total_size);
                        } else {
                            assert(order[p] == old_order[p - 1] && order[q] == old_order[q - 1]);
                        }
                    }
                }
                seen = seen + 1;
            },
        }
        i = i + 1;
    }
    proof {
        assert(all.take(i as int) =~= all);
        assert(folders.take(seen as int) =~= folders);
        assert(is_stable_selection(keys, |x: int| true, order));
        assert(largest_first(folders, order));
        lemma_size_precedes(folders);
        assert forall|p: int, q: int| 0 <= p < q < children@.len() implies
            (#[trigger] children@[p]).total_size >= (#[trigger] children@[q]).total_size by {
            assert(precedes(keys, order[p] as int, order[q] as int));
        }
        lemma_sorted_forest(children@);
        if forall|k: int| 0 <= k < folders.len() ==> sorted_tree(#[trigger] folders[k]) {
            assert forall|k: int| 0 <= k < children@.len() implies sorted_tree(#[trigger] children@[k]) by {
                assert(children@[k] == folders[order[k] as int]);
            }
        }
    }
    let node = FolderNode { name, path: path.to_owned(), file_count, total_size, children };
    assert(node.children@ == children@);
    node
}

/// An entry of a folder as read from the disk: a file and its size in bytes, or a
/// folder with its path and its entries in the order read.
pub struct ScannedEntry {
    pub is_dir: bool,
    pub path: String,
    pub size: u64,
    pub entries: Vec<ScannedEntry>,
}

/// The files under an entry, counted through all sub-folders: 1 for a file.
pub open spec fn scanned_files(e: ScannedEntry) -> nat
    decreases e, 1nat,
{
    if e.is_dir {
        scanned_list_files(e.entries@)
    } else {
        1
    }
}

/// The files under all of `es`.
pub open spec fn scanned_list_files(es: Seq<ScannedEntry>) -> nat
    decreases es, 0nat,
{
    if es.len() == 0 {
        0
    } else {
        scanned_list_files(es.drop_last()) + scanned_files(es[es.len() - 1])
    }
}

/// The bytes of the files under an entry, through all sub-folders.
pub open spec fn scanned_bytes(e: ScannedEntry) -> nat
    decreases e, 1nat,
{
    if e.is_dir {
        scanned_list_bytes(e.entries@)
    } else {
        e.size as nat
    }
}

/// The bytes of the files under all of `es`.
pub open spec fn scanned_list_bytes(es: Seq<ScannedEntry>) -> nat
    decreases es, 0nat,
{
    if es.len() == 0 {
        0
    } else {
        scanned_list_bytes(es.drop_last()) + scanned_bytes(es[es.len() - 1])
    }
}

proof fn lemma_scanned_prefix(es: Seq<ScannedEntry>, i: int)
    requires
        0 <= i < es.len(),
    ensures
        scanned_list_files(es.take(i)) + scanned_files(es[i]) <= scanned_list_files(es),
        scanned_list_bytes(es.take(i)) + scanned_bytes(es[i]) <= scanned_list_bytes(es),
        scanned_list_files(es.take(i + 1)) == scanned_list_files(es.take(i)) + scanned_files(es[i]),
        scanned_list_bytes(es.take(i + 1)) == scanned_list_bytes(es.take(i)) + scanned_bytes(es[i]),
    decreases es.len(),
{
    assert(es.take(i + 1).drop_last() =~= es.take(i));
    assert(es.take(i + 1)[i] == es[i]);
    if i < es.len() - 1 {
        lemma_scanned_prefix(es.drop_last(), i);
        assert(es.drop_last().take(i) =~= es.take(i));
        assert(es.drop_last()[i] == es[i]);
    } else {
        assert(es.take(i + 1) =~= es);
    }
}

proof fn lemma_folders_of_items(items: Seq<ScanItem>)
    ensures
        forall|k: int| 0 <= k < folders_of(items).len() ==>
            exists|j: int| 0 <= j < items.len() && #[trigger] items[j] == ScanItem::Folder(#[trigger] folders_of(items)[k]),
    decreases items.len(),
{
    if items.len() > 0 {
        let init = items.drop_last();
        lemma_folders_of_items(init);
        assert forall|k: int| 0 <= k < folders_of(items).len() implies
            exists|j: int| 0 <= j < items.len() && #[trigger] items[j] == ScanItem::Folder(#[trigger] folders_of(items)[k]) by {
            if k < folders_of(init).len() {
                match items.last() {
                    ScanItem::Folder(node) => assert(folders_of(items)[k] == folders_of(init)[k]),
                    ScanItem::File(_) => {},
                }
                let j = choose|j: int| 0 <= j < init.len() && #[trigger] init[j] == ScanItem::Folder(#[trigger] folders_of(init)[k]);
                assert(items[j] == init[j]);
            } else {
                assert(items[items.len() - 1] == items.last());
            }
        }
    }
}

/// The items that stand for the entries of a folder tree, level by level: for the
/// folder itself, one item per entry read, and for each entry the same for what it
/// holds (nothing for a file).
pub struct ScanLevels {
    pub items: Seq<ScanItem>,
    pub below: Seq<ScanLevels>,
}

/// `node` is what a walk makes of the folder tree `dir`, level by level as `levels`
/// gives the items: `node` holds the statistics of its items (see `node_of_items`), and
/// each item stands for the entry read at its place: a file by its size, a sub-folder by
/// a node that it makes of that sub-folder in turn.
pub open spec fn describes_with(node: FolderNode, dir: ScannedEntry, levels: ScanLevels) -> bool
    decreases dir, 1nat,
{
    &&& node_of_items(node, dir.path@, levels.items)
    &&& items_describe(levels.items, levels.below, dir.entries@)
}

/// Each of `items` stands for the entry at the same place in `es`, with `below` giving
/// the items of what a sub-folder holds (see `describes_with`).
pub open spec fn items_describe(items: Seq<ScanItem>, below: Seq<ScanLevels>, es: Seq<ScannedEntry>) -> bool
    decreases es, 0nat,
{
    if es.len() == 0 {
        items.len() == 0
    } else {
        let e = es[es.len() - 1];
        &&& items.len() == es.len()
        &&& below.len() == es.len()
        &&& if e.is_dir {
            items[items.len() - 1] matches ScanItem::Folder(n) && describes_with(n, e, below[below.len() - 1])
        } else {
            items[items.len() - 1] == ScanItem::File(e.size)
        }
        &&& items_describe(items.drop_last(), below.drop_last(), es.drop_last())
    }
}

/// `node` is what a walk makes of the folder tree `dir` (see `describes_with`). So its
/// children are, up to their order, the nodes of the sub-folders read, its counts are
/// those of the files read plus those of its children, and a folder that could not be
/// read has no children.
pub open spec fn describes_scan(node: FolderNode, dir: ScannedEntry) -> bool {
    exists|levels: ScanLevels| #[trigger] describes_with(node, dir, levels)
}

/// The statistics of a whole folder tree as read from the disk (see `folder_node` for
/// each level): the files anywhere under it counted and their sizes added up, and the
/// sub-folders listed largest first at every level.
#[verifier::loop_isolation(false)]
pub fn folder_tree(dir: ScannedEntry) -> (node: FolderNode)
    requires
        scanned_list_files(dir.entries@) <= u64::MAX,
        scanned_list_bytes(dir.entries@) <= u64::MAX,
    ensures
        node.name@ == folder_name(dir.path@),
        node.path@ == dir.path@,
        node.file_count == scanned_list_files(dir.entries@),
        node.total_size == scanned_list_bytes(dir.entries@),
        describes_scan(node, dir),
        sorted_tree(node),
    decreases dir,
{
    let ghost whole = dir;
    let ScannedEntry { is_dir: _, path, size: _, entries } = dir;
    let ghost es = entries@;
    let n = entries.len();
    let mut items: Vec<ScanItem> = Vec::new();
    let ghost mut below: Seq<ScanLevels> = seq![];
    let mut i: usize = 0;
    for entry in it: entries
        invariant
            es.len() == n,
            it.seq() == es,
            es == whole.entries@,
            i == it.index(),
            i <= es.len(),
            items@.len() == i,
            scanned_list_files(es) <= u64::MAX,
            scanned_list_bytes(es) <= u64::MAX,
            files_total(items@) == scanned_list_files(es.take(i as int)),
            bytes_total(items@) == scanned_list_bytes(es.take(i as int)),
            forall|k: int| 0 <= k < items@.len() ==> (#[trigger] items@[k] matches ScanItem::Folder(n) ==> sorted_tree(n)),
            items_describe(items@, below, es.take(i as int)),
            below.len() == i,
    {
        proof {
            lemma_scanned_prefix(es, i as int);
            assert(entry == es[i as int]);
        }
        let ghost before = items@;
        let ghost old_below = below;
        if entry.is_dir {
            proof {
                assert(decreases_to!(whole => whole.entries));
                assert(decreases_to!(whole.entries => whole.entries@));
                assert(decreases_to!(whole.entries@ => whole.entries@[i as int]));
                assert(decreases_to!(whole => entry));
            }
            let ghost sub = entry;
            let child = folder_tree(entry);
            proof {
                let levels = choose|levels: ScanLevels| #[trigger] describes_with(child, sub, levels);
                below = below.push(levels);
            }
            items.push(ScanItem::Folder(child));
        } else {
            proof {
                below = below.push(ScanLevels { items: seq![], below: seq![] });
            }
            items.push(ScanItem::File(entry.size));
        }
        proof {
            assert(items@.drop_last() =~= before);
            assert(items@.last() == items@[i as int]);
            assert(es.take(i + 1).drop_last() =~= es.take(i as int));
            assert(below.drop_last() =~= old_below);
            assert(es.take(i + 1)[i as int] == es[i as int]);
        }
        i = i + 1;
    }
    proof {
        assert(es.take(i as int) =~= es);
        assert(es.take(0) =~= Seq::<ScannedEntry>::empty());
        lemma_folders_of_items(items@);
        assert forall|k: int| 0 <= k < folders_of(items@).len() implies sorted_tree(#[trigger] folders_of(items@)[k]) by {
            let j = choose|j: int| 0 <= j < items@.len() && #[trigger] items@[j] == ScanItem::Folder(#[trigger] folders_of(items@)[k]);
        }
    }
    let ghost all = items@;
    let node = folder_node(path.as_str(), items);
    let ghost levels = ScanLevels { items: all, below };
    assert(describes_with(node, whole, levels));
    node
}

/// What a walk learned of an entry it read.
pub enum EntryMeta {
    /// Its metadata could not be read.
    Unreadable,
    /// A folder.
    Folder,
    /// A file of the given size in bytes.
    File(u64),
}

/// What a walk does next with an entry.
#[derive(PartialEq, Eq, Structural)]
pub enum ScanAction {
    /// It was cancelled: give up the whole walk.
    Stop,
    /// Pass the entry over.
    Skip,
    /// Walk into the sub-folder; count it once it is done (see `folder_scanned`).
    Descend,
    /// Keep the file, counted in the progress, and report the progress.
    Count(u64),
}

/// How far a walk has come: the files and the folders read so far.
#[derive(PartialEq, Eq, Structural, Clone, Copy)]
pub struct ScanProgress {
    pub files: u64,
    pub folders: u64,
}

/// The next step of a walk, at an entry read with `meta`, once the walk has checked
/// whether it was cancelled: a cancelled walk stops, an entry whose metadata cannot be
/// read is passed over, a folder is walked into, and a file is counted.
pub fn scan_step(progress: ScanProgress, cancelled: bool, meta: EntryMeta) -> (res: (ScanProgress, ScanAction))
    requires
        progress.files < u64::MAX,
    ensures
        cancelled ==> res == (progress, ScanAction::Stop),
        !cancelled ==> match meta {
            EntryMeta::Unreadable => res == (progress, ScanAction::Skip),
            EntryMeta::Folder => res == (progress, ScanAction::Descend),
            EntryMeta::File(len) => res == (ScanProgress { files: (progress.files + 1) as u64, folders: progress.folders }, ScanAction::Count(len)),
        },
{
    if cancelled {
        return (progress, ScanAction::Stop);
    }
    match meta {
        EntryMeta::Unreadable => (progress, ScanAction::Skip),
        EntryMeta::Folder => (progress, ScanAction::Descend),
        EntryMeta::File(len) => (ScanProgress { files: progress.files + 1, folders: progress.folders }, ScanAction::Count(len)),
    }
}

/// The progress once a sub-folder has been walked through: one more folder.
pub fn folder_scanned(progress: ScanProgress) -> (res: ScanProgress)
    requires
        progress.folders < u64::MAX,
    ensures
        res == (ScanProgress { files: progress.files, folders: (progress.folders + 1) as u64 }),
{
    ScanProgress { files: progress.files, folders: progress.folders + 1 }
}

} // verus!
