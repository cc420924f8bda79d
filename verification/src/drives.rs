//! The drive list: one row per mounted volume, listed by mount path.

use vstd::prelude::*;
use crate::text::{chars_of, push_char};
use crate::size::{format_size, size_text};
use crate::order::{SortKey, is_stable_selection, stable_order};

verus! {

/// A mounted volume as the system reports it.
pub struct DiskInfo {
    pub mount_point: String,
    /// The volume's label; empty when it has none.
    pub label: String,
    pub total_space: u64,
    pub available_space: u64,
    pub file_system: String,
}

/// One row of the drive list, every column as text.
pub struct Drive {
    pub kind: String,
    pub name: String,
    pub path: String,
    pub total: String,
    pub free: String,
    pub file_system: String,
}

/// The kind of every drive row: "drive".
pub open spec fn drive_kind() -> Seq<char> {
    seq!['d', 'r', 'i', 'v', 'e']
}

/// `drive` is the row of `disk`: named by its label, or by its mount path when the
/// label is empty; sizes formatted.
pub open spec fn describes_disk(drive: Drive, disk: DiskInfo) -> bool {
    &&& drive.kind@ == drive_kind()
    &&& drive.name@ == (if disk.label@.len() == 0 { disk.mount_point@ } else { disk.label@ })
    &&& drive.path@ == disk.mount_point@
    &&& drive.total@ == size_text(disk.total_space as nat)
    &&& drive.free@ == size_text(disk.available_space as nat)
    &&& drive.file_system@ == disk.file_system@
}

/// `order` lists every disk once, by mount path, disks with the same path in the
/// order in which they were reported.
pub open spec fn drive_order(disks: Seq<DiskInfo>, order: Seq<usize>) -> bool {
    is_stable_selection(disks.map_values(|d: DiskInfo| (0u64, d.mount_point@)), |i: int| true, order)
}

fn drive_kind_text() -> (s: String)
    ensures
        s@ == drive_kind(),
{
    let mut s = String::new();
    push_char(&mut s, 'd');
    push_char(&mut s, 'r');
    push_char(&mut s, 'i');
    push_char(&mut s, 'v');
    push_char(&mut s, 'e');
    s
}

/// The row of one disk (see `describes_disk`).
pub fn drive_of(disk: &DiskInfo) -> (drive: Drive)
    ensures
        describes_disk(drive, *disk),
{
    let name = if disk.label.as_str().unicode_len() == 0 { disk.mount_point.clone() } else { disk.label.clone() };
    Drive {
        kind: drive_kind_text(),
        name,
        path: disk.mount_point.clone(),
        total: format_size(disk.total_space),
        free: format_size(disk.available_space),
        file_system: disk.file_system.clone(),
    }
}

/// The drive list: the row of every disk, by mount path.
pub fn list_drives(disks: &Vec<DiskInfo>) -> (drives: Vec<Drive>)
    ensures
        exists|order: Seq<usize>| {
            &&& #[trigger] drive_order(disks@, order)
            &&& drives@.len() == order.len()
            &&& forall|k: int| 0 <= k < order.len() ==> describes_disk(#[trigger] drives@[k], disks@[order[k] as int])
        },
{
    let ghost keys_view = disks@.map_values(|d: DiskInfo| (0u64, d.mount_point@));
    let mut keys: Vec<SortKey> = Vec::new();
    let mut picked: Vec<usize> = Vec::new();
    let mut i: usize = 0;
    while i < disks.len()
        invariant
            i <= disks@.len(),
            keys@.len() == i,
            picked@.len() == i,
            keys_view == disks@.map_values(|d: DiskInfo| (0u64, d.mount_point@)),
            forall|j: int| 0 <= j < i ==> (#[trigger] keys@[j])@ == keys_view[j],
            forall|j: int| 0 <= j < i ==> #[trigger] picked@[j] == j,
        decreases disks@.len() - i,
    {
        keys.push(SortKey { rank: 0, text: chars_of(disks[i].mount_point.as_str()) });
        picked.push(i);
        i = i + 1;
    }
    assert(keys@.map_values(|k: SortKey| k@) =~= keys_view);
    let order = stable_order(&keys, &picked);
    let mut drives: Vec<Drive> = Vec::new();
    let mut k: usize = 0;
    while k < order.len()
        invariant
            k <= order@.len(),
            drives@.len() == k,
            picked@.len() == disks@.len(),
            forall|j: int| 0 <= j < picked@.len() ==> #[trigger] picked@[j] == j,
            forall|m: int| 0 <= m < order@.len() ==> picked@.contains(#[trigger] order@[m]),
            forall|m: int| 0 <= m < k ==> describes_disk(#[trigger] drives@[m], disks@[order@[m] as int]),
        decreases order@.len() - k,
    {
        let idx = order[k];
        assert(picked@.contains(idx));
        drives.push(drive_of(&disks[idx]));
        k = k + 1;
    }
    proof {
        let sel = |i: int| true;
        assert forall|m: int| 0 <= m < order@.len() implies #[trigger] order@[m] < keys_view.len() && sel(order@[m] as int) by {
            assert(picked@.contains(order@[m]));
        }
        assert forall|j: int| 0 <= j < keys_view.len() && #[trigger] sel(j) implies order@.contains(j as usize) by {
            assert(picked@[j] == j);
            assert(picked@.contains(j as usize));
        }
        assert(drive_order(disks@, order@));
    }
    drives
}

/// The row of a Windows drive letter: named "C:", at "C:\", its file system, or the
/// dash when the volume information could not be read.
pub fn drive_details(letter: char, total: u64, free: u64, file_system: Option<String>) -> (drive: Drive)
    ensures
        drive.kind@ == drive_kind(),
        drive.name@ == seq![letter, ':'],
        drive.path@ == seq![letter, ':', '\\'],
        drive.total@ == size_text(total as nat),
        drive.free@ == size_text(free as nat),
        drive.file_system@ == (match file_system {
            Some(fs) => fs@,
            None => seq!['\u{2014}'],
        }),
{
    let mut name = String::new();
    push_char(&mut name, letter);
    push_char(&mut name, ':');
    let mut path = String::new();
    push_char(&mut path, letter);
    push_char(&mut path, ':');
    push_char(&mut path, '\\');
    let file_system = match file_system {
        Some(fs) => fs,
        None => {
            let mut s = String::new();
            push_char(&mut s, '\u{2014}');
            s
        },
    };
    Drive { kind: drive_kind_text(), name, path, total: format_size(total), free: format_size(free), file_system }
}

} // verus!
