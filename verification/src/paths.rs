//! Path operations that the library asks of `std::path`, and the file-name logic
//! built on them: extensions, stems, and the names given to copies.

use vstd::prelude::*;
use crate::text::{chars_of, push_char};

verus! {

/// What `Path::file_name` gives for `path`: its last component when that is a normal one.
pub uninterp spec fn file_name_of(path: Seq<char>) -> Option<Seq<char>>;

/// What `Path::parent` gives for `path`: the path without its last component.
pub uninterp spec fn parent_of(path: Seq<char>) -> Option<Seq<char>>;

/// What `Path::join` gives for `base` and `name`.
pub uninterp spec fn joined(base: Seq<char>, name: Seq<char>) -> Seq<char>;

/// Whether `Path`'s `==` takes `a` and `b` for the same path (it compares components).
pub uninterp spec fn same_path(a: Seq<char>, b: Seq<char>) -> bool;

/// Calls `std::path::Path::file_name`; the contract claims only that the result is
/// a function of the path, named `file_name_of`.
#[verifier::external_body]
pub(crate) fn path_file_name(path: &str) -> (res: Option<String>)
    ensures
        res.deep_view() == file_name_of(path@),
{
    std::path::Path::new(path).file_name().map(|name| name.to_string_lossy().to_string())
}

/// Calls `std::path::Path::parent`; the contract claims only that the result is a
/// function of the path, named `parent_of`.
#[verifier::external_body]
pub(crate) fn path_parent(path: &str) -> (res: Option<String>)
    ensures
        res.deep_view() == parent_of(path@),
{
    std::path::Path::new(path).parent().map(|parent| parent.to_string_lossy().to_string())
}

/// Calls `std::path::Path::join`; the contract claims only that the result is a
/// function of both arguments, named `joined`.
#[verifier::external_body]
pub(crate) fn path_join(base: &str, name: &str) -> (res: String)
    ensures
        res@ == joined(base@, name@),
{
    std::path::Path::new(base).join(name).to_string_lossy().to_string()
}

/// Calls `==` on two `std::path::Path`s; the contract claims only that the answer is
/// a function of both paths, named `same_path`.
#[verifier::external_body]
pub(crate) fn paths_equal(a: &str, b: &str) -> (res: bool)
    ensures
        res == same_path(a@, b@),
{
    std::path::Path::new(a) == std::path::Path::new(b)
}

/// The index of the last `.` in `name`, or -1 when there is none.
pub open spec fn last_dot(name: Seq<char>) -> int
    decreases name.len(),
{
    if name.len() == 0 {
        -1
    } else if name.last() == '.' {
        name.len() - 1
    } else {
        last_dot(name.drop_last())
    }
}

/// The extension of a file name, as `Path::extension` documents it: none when there
/// is no `.`, or when the only `.` begins the name; else what follows the last `.`.
pub open spec fn name_extension(name: Seq<char>) -> Option<Seq<char>> {
    let k = last_dot(name);
    if k <= 0 {
        None
    } else {
        Some(name.subrange(k + 1, name.len() as int))
    }
}

/// The stem of a file name, as `Path::file_stem` documents it: the whole name when
/// there is no `.` or the only `.` begins it; else what precedes the last `.`.
pub open spec fn name_stem(name: Seq<char>) -> Seq<char> {
    let k = last_dot(name);
    if k <= 0 {
        name
    } else {
        name.subrange(0, k)
    }
}

/// `Path::extension` of a path: the extension of its file name, if it has one.
pub open spec fn extension_of(path: Seq<char>) -> Option<Seq<char>> {
    match file_name_of(path) {
        Some(name) => name_extension(name),
        None => None,
    }
}

/// `Path::file_stem` of a path: the stem of its file name, if it has one.
pub open spec fn stem_of(path: Seq<char>) -> Option<Seq<char>> {
    match file_name_of(path) {
        Some(name) => Some(name_stem(name)),
        None => None,
    }
}

proof fn lemma_last_dot(name: Seq<char>)
    ensures
        -1 <= last_dot(name) < name.len(),
        last_dot(name) >= 0 ==> name[last_dot(name)] == '.',
    decreases name.len(),
{
    if name.len() > 0 && name.last() != '.' {
        lemma_last_dot(name.drop_last());
    }
}

/// The index of the last `.` in `chars`, if there is one.
fn find_last_dot(chars: &Vec<char>) -> (res: Option<usize>)
    ensures
        match res {
            Some(k) => k == last_dot(chars@),
            None => last_dot(chars@) == -1,
        },
{
    let mut i: usize = chars.len();
    assert(chars@.take(i as int) =~= chars@);
    while i > 0
        invariant
            i <= chars@.len(),
            last_dot(chars@) == last_dot(chars@.take(i as int)),
        decreases i,
    {
        let ghost pre = chars@.take(i as int);
        if chars[i - 1] == '.' {
            return Some(i - 1);
        }
        assert(pre.drop_last() =~= chars@.take(i - 1));
        i = i - 1;
    }
    assert(chars@.take(0) =~= Seq::<char>::empty());
    None
}

/// The characters `chars[lo..hi]` as a `String`.
fn string_of_range(chars: &Vec<char>, lo: usize, hi: usize) -> (res: String)
    requires
        lo <= hi <= chars@.len(),
    ensures
        res@ == chars@.subrange(lo as int, hi as int),
{
    let mut out = String::new();
    let mut i = lo;
    while i < hi
        invariant
            lo <= i <= hi <= chars@.len(),
            out@ == chars@.subrange(lo as int, i as int),
        decreases hi - i,
    {
        push_char(&mut out, chars[i]);
        assert(chars@.subrange(lo as int, i + 1) =~= chars@.subrange(lo as int, i as int).push(chars@[i as int]));
        i = i + 1;
    }
    out
}

/// Splits a file name into its stem and its extension (see `name_stem`, `name_extension`).
pub fn split_name(name: &str) -> (res: (String, Option<String>))
    ensures
        res.0@ == name_stem(name@),
        res.1.deep_view() == name_extension(name@),
{
    let chars = chars_of(name);
    match find_last_dot(&chars) {
        Some(k) if k > 0 => {
            proof { lemma_last_dot(chars@); }
            let stem = string_of_range(&chars, 0, k);
            let ext = string_of_range(&chars, k + 1, chars.len());
            (stem, Some(ext))
        },
        _ => {
            assert(chars@.subrange(0, chars@.len() as int) =~= chars@);
            (string_of_range(&chars, 0, chars.len()), None)
        },
    }
}

} // verus!
