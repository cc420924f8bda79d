//! Which folders are watched for changes: moving from the watched set to the set that
//! the panes now show, and which folders to report when something changes.

use vstd::prelude::*;
use crate::paths::{parent_of, path_parent};

verus! {

/// The folders being watched, each once. They are kept in a `Vec` that holds no path
/// twice rather than in a `HashSet`: with `String` keys, what Verus knows of the hash
/// collections does not let it prove what they hold.
pub struct WatchedPaths {
    paths: Vec<String>,
}

/// Whether `name` is one of `list`.
fn contains_text(list: &Vec<String>, name: &String) -> (res: bool)
    ensures
        res == list.deep_view().contains(name@),
{
    let mut i: usize = 0;
    while i < list.len()
        invariant
            i <= list@.len(),
            forall|k: int| 0 <= k < i ==> list.deep_view()[k] != name@,
        decreases list@.len() - i,
    {
        if list[i] == *name {
            assert(list.deep_view()[i as int] == name@);
            return true;
        }
        i = i + 1;
    }
    false
}

/// The entries of `items` that are not in `exclude`, each once, in the order of their
/// first occurrence.
fn distinct_filtered(items: &Vec<String>, exclude: &Vec<String>) -> (res: Vec<String>)
    ensures
        res.deep_view().no_duplicates(),
        res.deep_view().to_set() == items.deep_view().to_set().difference(exclude.deep_view().to_set()),
{
    let mut res: Vec<String> = Vec::new();
    let mut i: usize = 0;
    while i < items.len()
        invariant
            i <= items@.len(),
            res.deep_view().no_duplicates(),
            res.deep_view().to_set() == items.deep_view().take(i as int).to_set().difference(exclude.deep_view().to_set()),
        decreases items@.len() - i,
    {
        let item = &items[i];
        let ghost before = res.deep_view();
        assert(items.deep_view().take(i + 1) =~= items.deep_view().take(i as int).push(item@));
        if !contains_text(exclude, item) && !contains_text(&res, item) {
            res.push(item.clone());
            assert(res.deep_view() =~= before.push(item@));
            assert(res.deep_view().to_set() =~= before.to_set().insert(item@)) by {
                before.lemma_push_to_set_commute(item@);
            }
        } else {
            assert(res.deep_view() == before);
        }
        assert(res.deep_view().to_set() =~= items.deep_view().take(i + 1).to_set().difference(exclude.deep_view().to_set())) by {
            items.deep_view().take(i as int).lemma_push_to_set_commute(item@);
        }
        i = i + 1;
    }
    assert(items.deep_view().take(i as int) =~= items.deep_view());
    res
}

impl WatchedPaths {
    #[verifier::type_invariant]
    spec fn each_once(&self) -> bool {
        self.paths.deep_view().no_duplicates()
    }

    /// The set of watched folders.
    pub closed spec fn paths(&self) -> Set<Seq<char>> {
        self.paths.deep_view().to_set()
    }

    /// Nothing watched.
    pub fn new() -> (res: WatchedPaths)
        ensures
            res.paths() == Set::<Seq<char>>::empty(),
    {
        let res = WatchedPaths { paths: Vec::new() };
        assert(res.paths.deep_view() =~= Seq::<Seq<char>>::empty());
        res
    }

    /// The watched folders, each once.
    pub fn list(&self) -> (res: Vec<String>)
        ensures
            res.deep_view().no_duplicates(),
            res.deep_view().to_set() == self.paths(),
    {
        proof { use_type_invariant(self); }
        let none: Vec<String> = Vec::new();
        assert(none.deep_view().to_set() =~= Set::<Seq<char>>::empty());
        let res = distinct_filtered(&self.paths, &none);
        assert(res.deep_view().to_set() =~= self.paths());
        res
    }

    /// Makes `desired` the watched set. Returns the folders to stop watching (watched
    /// but no longer desired) and those to start watching (desired but not watched),
    /// each once.
    pub fn update(&mut self, desired: &Vec<String>) -> (res: (Vec<String>, Vec<String>))
        ensures
            final(self).paths() == desired.deep_view().to_set(),
            res.0.deep_view().no_duplicates(),
            res.0.deep_view().to_set() == old(self).paths().difference(desired.deep_view().to_set()),
            res.1.deep_view().no_duplicates(),
            res.1.deep_view().to_set() == desired.deep_view().to_set().difference(old(self).paths()),
    {
        proof { use_type_invariant(&*self); }
        let unwatch = distinct_filtered(&self.paths, desired);
        let watch = distinct_filtered(desired, &self.paths);
        let none: Vec<String> = Vec::new();
        assert(none.deep_view().to_set() =~= Set::<Seq<char>>::empty());
        let next = distinct_filtered(desired, &none);
        assert(next.deep_view().to_set() =~= desired.deep_view().to_set());
        self.paths = next;
        (unwatch, watch)
    }
}

/// Once an update has made `desired` the watched set, updating to the same folders
/// again stops and starts watching nothing.
pub proof fn lemma_update_idempotent(watched: Set<Seq<char>>, desired: Seq<Seq<char>>)
    requires
        watched == desired.to_set(),
    ensures
        watched.difference(desired.to_set()) == Set::<Seq<char>>::empty(),
        desired.to_set().difference(watched) == Set::<Seq<char>>::empty(),
{
    assert(watched.difference(desired.to_set()) =~= Set::<Seq<char>>::empty());
    assert(desired.to_set().difference(watched) =~= Set::<Seq<char>>::empty());
}

/// The folders to report for a change to `changed`: the parent of each changed path,
/// in order, a parent equal to the one just before it reported once.
pub open spec fn changed_folders(changed: Seq<Seq<char>>) -> Seq<Seq<char>>
    decreases changed.len(),
{
    if changed.len() == 0 {
        seq![]
    } else {
        let before = changed_folders(changed.drop_last());
        match parent_of(changed.last()) {
            Some(parent) => if before.len() > 0 && before.last() == parent { before } else { before.push(parent) },
            None => before,
        }
    }
}

/// The folders whose listing a change to the paths `changed` affects (see `changed_folders`).
pub fn folders_to_refresh(changed: &Vec<String>) -> (res: Vec<String>)
    ensures
        res.deep_view() == changed_folders(changed.deep_view()),
{
    let mut res: Vec<String> = Vec::new();
    let mut i: usize = 0;
    while i < changed.len()
        invariant
            i <= changed@.len(),
            res.deep_view() == changed_folders(changed.deep_view().take(i as int)),
        decreases changed@.len() - i,
    {
        assert(changed.deep_view().take(i + 1).drop_last() =~= changed.deep_view().take(i as int));
        assert(changed.deep_view().take(i + 1).last() == changed@[i as int]@);
        let ghost before = res.deep_view();
        match path_parent(changed[i].as_str()) {
            Some(parent) => {
                let n = res.len();
                let repeated = n > 0 && res[n - 1] == parent;
                if !repeated {
                    res.push(parent);
                    assert(res.deep_view() =~= before.push(parent@));
                }
            },
            None => {},
        }
        i = i + 1;
    }
    assert(changed.deep_view().take(i as int) =~= changed.deep_view());
    res
}

} // verus!
