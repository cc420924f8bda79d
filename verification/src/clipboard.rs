//! The in-app file clipboard: the paths last copied or cut, and which of the two.

use vstd::prelude::*;

verus! {

/// Paths put on the clipboard, and whether they were cut (moved on paste) rather than copied.
pub struct Clipboard {
    files: Option<(Vec<String>, bool)>,
}

/// The clipboard's state after `paths` were written to it, cut or copied.
pub open spec fn written(paths: Seq<Seq<char>>, cut: bool) -> Option<(Seq<Seq<char>>, bool)> {
    Some((paths, cut))
}

/// What a read of a clipboard in `state` gives.
pub open spec fn read_result(state: Option<(Seq<Seq<char>>, bool)>) -> Option<(Seq<Seq<char>>, bool)> {
    state
}

impl View for Clipboard {
    type V = Option<(Seq<Seq<char>>, bool)>;

    closed spec fn view(&self) -> Option<(Seq<Seq<char>>, bool)> {
        match self.files {
            Some((paths, cut)) => Some((paths.deep_view(), cut)),
            None => None,
        }
    }
}

fn clone_paths(paths: &Vec<String>) -> (res: Vec<String>)
    ensures
        res.deep_view() == paths.deep_view(),
{
    let mut res: Vec<String> = Vec::new();
    let mut i: usize = 0;
    while i < paths.len()
        invariant
            i <= paths@.len(),
            res.deep_view() == paths.deep_view().take(i as int),
        decreases paths@.len() - i,
    {
        let c = paths[i].clone();
        let ghost prev = res.deep_view();
        res.push(c);
        assert(res.deep_view() =~= prev.push(c@));
        assert(paths.deep_view().take(i + 1) =~= paths.deep_view().take(i as int).push(paths@[i as int]@));
        i = i + 1;
    }
    assert(paths.deep_view().take(i as int) =~= paths.deep_view());
    res
}

impl Clipboard {
    /// An empty clipboard.
    pub fn new() -> (clipboard: Clipboard)
        ensures
            clipboard@ is None,
    {
        Clipboard { files: None }
    }

    /// Puts `paths` on the clipboard, cut or copied, in place of what it held.
    pub fn write(&mut self, paths: &Vec<String>, cut: bool)
        ensures
            final(self)@ == written(paths.deep_view(), cut),
    {
        self.files = Some((clone_paths(paths), cut));
    }

    /// What the clipboard holds: the paths and whether they were cut, or nothing.
    pub fn read(&self) -> (res: Option<(Vec<String>, bool)>)
        ensures
            match res {
                Some((paths, cut)) => read_result(self@) == Some((paths.deep_view(), cut)),
                None => read_result(self@) is None,
            },
    {
        match &self.files {
            Some((paths, cut)) => Some((clone_paths(paths), *cut)),
            None => None,
        }
    }
}

/// A read gives back exactly the paths and the cut flag of the last write, whatever
/// the clipboard held before it.
pub proof fn lemma_read_after_write(paths: Seq<Seq<char>>, cut: bool)
    ensures
        read_result(written(paths, cut)) == Some((paths, cut)),
{
}

} // verus!
