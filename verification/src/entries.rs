//! Directory listings: which entries are shown, how each is described, and the
//! order in which they are listed (folders first, then by lower-cased name).

use vstd::prelude::*;
use crate::text::{chars_of, decimal, push_char, push_decimal};
use crate::size::{format_size, size_text};
use crate::paths::{extension_of, path_file_name, split_name};
use crate::order::{SortKey, is_stable_selection, stable_order};

verus! {

/// The kind of a folder entry: "folder".
pub open spec fn folder_kind() -> Seq<char> {
    seq!['f', 'o', 'l', 'd', 'e', 'r']
}

/// The kind of any other entry: "file".
pub open spec fn file_kind() -> Seq<char> {
    seq!['f', 'i', 'l', 'e']
}

/// What stands in a column that has no value: an em dash.
pub open spec fn no_value() -> Seq<char> {
    seq!['\u{2014}']
}

/// Windows' hidden (0x2) and system (0x4) file attributes.
pub const HIDDEN_OR_SYSTEM: u32 = 6;

/// The rank of an entry kind in a listing: folders (0) before everything else (1).
pub open spec fn kind_rank(kind: Seq<char>) -> u8 {
    if kind == folder_kind() { 0 } else { 1 }
}

/// An entry is hidden when its name starts with `.`, or when the file attributes
/// that Windows reports for it (`u32::MAX` meaning that none could be read) have
/// the hidden or the system bit.
pub open spec fn hidden(name: Seq<char>, attributes: Option<u32>) -> bool {
    (name.len() > 0 && name[0] == '.') || match attributes {
        Some(a) => a != u32::MAX && a & HIDDEN_OR_SYSTEM != 0,
        None => false,
    }
}

/// The rank of an entry kind: 0 for "folder", 1 for anything else.
pub fn entry_kind_rank(kind: &str) -> (rank: u8)
    ensures
        rank == kind_rank(kind@),
{
    let chars = chars_of(kind);
    if chars.len() == 6 && chars[0] == 'f' && chars[1] == 'o' && chars[2] == 'l' && chars[3] == 'd'
        && chars[4] == 'e' && chars[5] == 'r' {
        assert(chars@ =~= folder_kind());
        0
    } else {
        assert(chars@ != folder_kind());
        1
    }
}

/// Whether an entry is hidden (see `hidden`). `attributes` are the Windows file
/// attributes, where the platform has them.
pub fn is_hidden(name: &str, attributes: Option<u32>) -> (res: bool)
    ensures
        res == hidden(name@, attributes),
{
    let chars = chars_of(name);
    if chars.len() > 0 && chars[0] == '.' {
        return true;
    }
    match attributes {
        Some(a) => a != u32::MAX && a & HIDDEN_OR_SYSTEM != 0,
        None => false,
    }
}


/// Which attributes hide an entry: only the hidden (0x2) and system (0x4) bits. An
/// entry whose name does not start with `.` is hidden exactly when attributes could be
/// read (they are not `u32::MAX`) and one of those two bits is set; every other bit,
/// the folder bit 0x10 and the archive bit 0x20 among them, leaves it listed. Without
/// attributes, only a leading `.` hides it.
pub proof fn lemma_hidden_only_by_dot_or_hidden_system_bits(name: Seq<char>, a: u32)
    ensures
        !(name.len() > 0 && name[0] == '.') ==> (hidden(name, Some(a)) <==> (a != 0xffff_ffff && ((a / 2) % 2 == 1
            || (a / 4) % 2 == 1))),
        hidden(name, None) <==> (name.len() > 0 && name[0] == '.'),
        name.len() > 0 && name[0] == '.' ==> hidden(name, Some(a)),
{
    assert((a & 6u32 != 0) <==> ((a / 2) % 2 == 1 || (a / 4) % 2 == 1)) by (bit_vector);
}
/// What `str::to_lowercase` gives for `s`.
pub uninterp spec fn lowercase(s: Seq<char>) -> Seq<char>;

/// Calls `str::to_lowercase`; the contract claims only that the result is a function
/// of the text, named `lowercase`.
#[verifier::external_body]
pub(crate) fn to_lowercase(s: &str) -> (res: String)
    ensures
        res@ == lowercase(s@),
{
    s.to_lowercase()
}

/// One entry of a directory as read from the file system.
pub struct DirItem {
    pub name: String,
    pub path: String,
    pub is_dir: bool,
    /// The size in bytes.
    pub len: u64,
    /// Seconds since the Unix epoch of the last modification, when known.
    pub modified: Option<u64>,
    /// The Windows file attributes, where the platform has them.
    pub attributes: Option<u32>,
}

/// One row of a directory listing, every column as text.
pub struct Entry {
    pub kind: String,
    pub name: String,
    pub extension: String,
    pub size: String,
    pub modified: String,
    pub path: String,
}

/// The kind column of an item.
pub open spec fn item_kind(item: DirItem) -> Seq<char> {
    if item.is_dir { folder_kind() } else { file_kind() }
}

/// The extension column: "." and the extension of a file, else the dash.
pub open spec fn item_extension(item: DirItem) -> Seq<char> {
    if item.is_dir {
        no_value()
    } else {
        match extension_of(item.name@) {
            Some(ext) => seq!['.'] + ext,
            None => no_value(),
        }
    }
}

/// The size column: the formatted size of a file, the dash for a folder.
pub open spec fn item_size(item: DirItem) -> Seq<char> {
    if item.is_dir { no_value() } else { size_text(item.len as nat) }
}

/// The modified column: seconds since the epoch, or the dash.
pub open spec fn item_modified(item: DirItem) -> Seq<char> {
    match item.modified {
        Some(secs) => decimal(secs as nat),
        None => no_value(),
    }
}

/// `entry` is the listing row of `item`.
pub open spec fn describes(entry: Entry, item: DirItem) -> bool {
    &&& entry.kind@ == item_kind(item)
    &&& entry.name@ == item.name@
    &&& entry.extension@ == item_extension(item)
    &&& entry.size@ == item_size(item)
    &&& entry.modified@ == item_modified(item)
    &&& entry.path@ == item.path@
}

/// The sort key of an item in a listing: the rank of its kind, then its lower-cased name.
pub open spec fn listing_key(item: DirItem) -> (u64, Seq<char>) {
    (kind_rank(item_kind(item)) as u64, lowercase(item.name@))
}

/// Whether an item is listed.
pub open spec fn listed(item: DirItem, show_hidden: bool) -> bool {
    show_hidden || !hidden(item.name@, item.attributes)
}

fn dash() -> (s: String)
    ensures
        s@ == no_value(),
{
    let mut s = String::new();
    push_char(&mut s, '\u{2014}');
    s
}

fn kind_text(is_dir: bool) -> (s: String)
    ensures
        s@ == (if is_dir { folder_kind() } else { file_kind() }),
{
    let mut s = String::new();
    if is_dir {
        push_char(&mut s, 'f');
        push_char(&mut s, 'o');
        push_char(&mut s, 'l');
        push_char(&mut s, 'd');
        push_char(&mut s, 'e');
        push_char(&mut s, 'r');
    } else {
        push_char(&mut s, 'f');
        push_char(&mut s, 'i');
        push_char(&mut s, 'l');
        push_char(&mut s, 'e');
    }
    s
}

/// The extension column of a name: "." and its extension, or the dash.
fn extension_text(name: &str) -> (s: String)
    ensures
        s@ == (match extension_of(name@) {
            Some(ext) => seq!['.'] + ext,
            None => no_value(),
        }),
{
    match path_file_name(name) {
        Some(file_name) => {
            let (_, ext) = split_name(file_name.as_str());
            match ext {
                Some(e) => {
                    let mut s = String::new();
                    push_char(&mut s, '.');
                    s.append(e.as_str());
                    s
                },
                None => dash(),
            }
        },
        None => dash(),
    }
}

/// The listing row of one item.
pub fn describe(item: &DirItem) -> (entry: Entry)
    ensures
        describes(entry, *item),
{
    let kind = kind_text(item.is_dir);
    let extension = if item.is_dir { dash() } else { extension_text(item.name.as_str()) };
    let size = if item.is_dir { dash() } else { format_size(item.len) };
    let modified = match item.modified {
        Some(secs) => {
            let mut s = String::new();
            push_decimal(&mut s, secs as u128);
            s
        },
        None => dash(),
    };
    Entry { kind, name: item.name.clone(), extension, size, modified, path: item.path.clone() }
}

/// `order` lists the indices of the listed items, folders first and then by lower-cased
/// name, items that tie in the order in which they were read.
pub open spec fn listing_order(items: Seq<DirItem>, show_hidden: bool, order: Seq<usize>) -> bool {
    is_stable_selection(
        items.map_values(|item: DirItem| listing_key(item)),
        |i: int| listed(items[i], show_hidden),
        order,
    )
}

/// The rows of a directory listing: each listed item (all of them when `show_hidden`,
/// else those that are not hidden) described, folders first and then by lower-cased
/// name, items that tie keeping the order in which they were read.
pub fn directory_entries(items: &Vec<DirItem>, show_hidden: bool) -> (entries: Vec<Entry>)
    ensures
        exists|order: Seq<usize>| {
            &&& #[trigger] listing_order(items@, show_hidden, order)
            &&& entries@.len() == order.len()
            &&& forall|k: int| 0 <= k < order.len() ==> describes(#[trigger] entries@[k], items@[order[k] as int])
        },
{
    let ghost keys_view = items@.map_values(|item: DirItem| listing_key(item));
    let mut keys: Vec<SortKey> = Vec::new();
    let mut picked: Vec<usize> = Vec::new();
    let mut i: usize = 0;
    while i < items.len()
        invariant
            i <= items@.len(),
            keys@.len() == i,
            keys_view == items@.map_values(|item: DirItem| listing_key(item)),
            forall|j: int| 0 <= j < i ==> (#[trigger] keys@[j])@ == keys_view[j],
            forall|k: int| 0 <= k < picked@.len() ==> #[trigger] picked@[k] < i && listed(items@[picked@[k] as int], show_hidden),
            forall|j: int| 0 <= j < i && listed(#[trigger] items@[j], show_hidden) ==> picked@.contains(j as usize),
            forall|p: int, q: int| 0 <= p < q < picked@.len() ==> #[trigger] picked@[p] < #[trigger] picked@[q],
        decreases items@.len() - i,
    {
        let item = &items[i];
        let kind = kind_text(item.is_dir);
        let rank = entry_kind_rank(kind.as_str());
        let lower = to_lowercase(item.name.as_str());
        let text = chars_of(lower.as_str());
        keys.push(SortKey { rank: rank as u64, text });
        let ghost before = picked@;
        if show_hidden || !is_hidden(item.name.as_str(), item.attributes) {
            picked.push(i);
            assert forall|j: int| 0 <= j < i + 1 && listed(#[trigger] items@[j], show_hidden) implies picked@.contains(j as usize) by {
                if j < i {
                    let k = choose|k: int| 0 <= k < before.len() && before[k] == j as usize;
                    assert(picked@[k] == j as usize);
                } else {
                    assert(picked@[before.len() as int] == i);
                }
            }
        }
        i = i + 1;
    }
    assert(keys@.map_values(|k: SortKey| k@) =~= keys_view);
    let order = stable_order(&keys, &picked);
    let mut entries: Vec<Entry> = Vec::new();
    let mut k: usize = 0;
    while k < order.len()
        invariant
            k <= order@.len(),
            entries@.len() == k,
            order@.len() == picked@.len(),
            forall|m: int| 0 <= m < picked@.len() ==> #[trigger] picked@[m] < items@.len(),
            forall|m: int| 0 <= m < order@.len() ==> picked@.contains(#[trigger] order@[m]),
            forall|m: int| 0 <= m < k ==> describes(#[trigger] entries@[m], items@[order@[m] as int]),
        decreases order@.len() - k,
    {
        let idx = order[k];
        assert(picked@.contains(idx));
        entries.push(describe(&items[idx]));
        k = k + 1;
    }
    proof {
        let sel = |i: int| listed(items@[i], show_hidden);
        assert forall|m: int| 0 <= m < order@.len() implies #[trigger] order@[m] < keys_view.len() && sel(order@[m] as int) by {
            assert(picked@.contains(order@[m]));
        }
        assert forall|j: int| 0 <= j < keys_view.len() && #[trigger] sel(j) implies order@.contains(j as usize) by {
            assert(picked@.contains(j as usize));
        }
        assert(is_stable_selection(keys_view, sel, order@));
        assert(listing_order(items@, show_hidden, order@));
    }
    entries
}

} // verus!
