//! Names for pasted entries that do not overwrite anything: "a.txt", then
//! "a - Copy.txt", "a - Copy (2).txt", "a - Copy (3).txt", ...

use vstd::prelude::*;
use crate::text::{decimal, digit_char, push_char, push_decimal};
use crate::paths::{extension_of, joined, path_file_name, path_join, split_name, stem_of};

verus! {

/// The text " - Copy".
pub open spec fn copy_marker() -> Seq<char> {
    seq![' ', '-', ' ', 'C', 'o', 'p', 'y']
}

/// The stem that copies of `name` keep: its file stem, or the whole name when it has none.
pub open spec fn copy_stem(name: Seq<char>) -> Seq<char> {
    match stem_of(name) {
        Some(stem) => stem,
        None => name,
    }
}

/// What copies of `name` end with: `.` and its extension, or nothing.
pub open spec fn copy_suffix(name: Seq<char>) -> Seq<char> {
    match extension_of(name) {
        Some(ext) => seq!['.'] + ext,
        None => seq![],
    }
}

/// The `attempt`-th name tried for a copy of `name`: the name itself, then
/// "stem - Copy.ext", then "stem - Copy (n).ext" for n = 2, 3, ...
pub open spec fn copy_name(name: Seq<char>, attempt: nat) -> Seq<char> {
    if attempt == 0 {
        name
    } else if attempt == 1 {
        copy_stem(name) + copy_marker() + copy_suffix(name)
    } else {
        copy_stem(name) + copy_marker() + seq![' ', '('] + decimal(attempt) + seq![')'] + copy_suffix(name)
    }
}

proof fn lemma_decimal_len(n: nat)
    ensures
        decimal(n).len() >= 1,
        n >= 10 ==> decimal(n).len() >= 2,
    decreases n,
{
    if n >= 10 {
        lemma_decimal_len(n / 10);
    }
}

proof fn lemma_digit_char_injective(a: nat, b: nat)
    requires
        a < 10,
        b < 10,
        digit_char(a) == digit_char(b),
    ensures
        a == b,
{
    assert(digit_char(a) as u32 == a + 48);
    assert(digit_char(b) as u32 == b + 48);
}

/// Different numbers have different decimal representations.
pub proof fn lemma_decimal_injective(a: nat, b: nat)
    requires
        decimal(a) == decimal(b),
    ensures
        a == b,
    decreases a,
{
    lemma_decimal_len(a);
    lemma_decimal_len(b);
    if a < 10 && b < 10 {
        assert(decimal(a)[0] == digit_char(a));
        assert(decimal(b)[0] == digit_char(b));
        lemma_digit_char_injective(a, b);
    } else if a >= 10 && b >= 10 {
        assert(decimal(a).last() == digit_char(a % 10));
        assert(decimal(b).last() == digit_char(b % 10));
        lemma_digit_char_injective(a % 10, b % 10);
        assert(decimal(a).drop_last() =~= decimal(a / 10));
        assert(decimal(b).drop_last() =~= decimal(b / 10));
        lemma_decimal_injective(a / 10, b / 10);
    } else {
        assert(decimal(a).len() != decimal(b).len());
    }
}

/// Copy names after the original name are all different from each other.
pub proof fn lemma_copy_names_distinct(name: Seq<char>, i: nat, j: nat)
    requires
        1 <= i,
        1 <= j,
        copy_name(name, i) == copy_name(name, j),
    ensures
        i == j,
{
    let stem = copy_stem(name);
    let suffix = copy_suffix(name);
    let head = stem + copy_marker() + seq![' ', '('];
    lemma_decimal_len(i);
    lemma_decimal_len(j);
    if i >= 2 && j >= 2 {
        let ci = copy_name(name, i);
        assert(ci == head + decimal(i) + seq![')'] + suffix);
        assert(copy_name(name, j) == head + decimal(j) + seq![')'] + suffix);
        assert(decimal(i).len() == decimal(j).len());
        let lo = head.len() as int;
        let hi = lo + decimal(i).len();
        assert(ci.subrange(lo, hi) =~= decimal(i));
        assert(copy_name(name, j).subrange(lo, hi) =~= decimal(j));
        lemma_decimal_injective(i, j);
    } else if i != j {
        assert(copy_name(name, i).len() != copy_name(name, j).len());
    }
}

fn push_str(out: &mut String, s: &String)
    ensures
        final(out)@ == old(out)@ + s@,
{
    out.append(s.as_str());
}

/// The copy name of the given attempt (at least 1), from the stem and suffix of the name.
fn copy_name_from(stem: &String, suffix: &String, attempt: u128, Ghost(name): Ghost<Seq<char>>) -> (res: String)
    requires
        attempt >= 1,
        stem@ == copy_stem(name),
        suffix@ == copy_suffix(name),
    ensures
        res@ == copy_name(name, attempt as nat),
{
    let mut out = String::new();
    push_str(&mut out, stem);
    push_char(&mut out, ' ');
    push_char(&mut out, '-');
    push_char(&mut out, ' ');
    push_char(&mut out, 'C');
    push_char(&mut out, 'o');
    push_char(&mut out, 'p');
    push_char(&mut out, 'y');
    if attempt >= 2 {
        push_char(&mut out, ' ');
        push_char(&mut out, '(');
        push_decimal(&mut out, attempt);
        push_char(&mut out, ')');
    }
    push_str(&mut out, suffix);
    assert(out@ =~= copy_name(name, attempt as nat));
    out
}

/// The stem and the suffix that copies of `name` have (see `copy_stem`, `copy_suffix`).
fn stem_and_suffix(name: &str) -> (res: (String, String))
    ensures
        res.0@ == copy_stem(name@),
        res.1@ == copy_suffix(name@),
{
    match path_file_name(name) {
        Some(file_name) => {
            let (stem, ext) = split_name(file_name.as_str());
            let mut suffix = String::new();
            match ext {
                Some(e) => {
                    push_char(&mut suffix, '.');
                    push_str(&mut suffix, &e);
                },
                None => {},
            }
            assert(suffix@ =~= copy_suffix(name@));
            (stem, suffix)
        },
        None => (name.to_owned(), String::new()),
    }
}

/// The path of the `attempt`-th name tried for a copy of `name` in `dest_dir`.
pub open spec fn candidate_path(dest_dir: Seq<char>, name: Seq<char>, attempt: nat) -> Seq<char> {
    joined(dest_dir, copy_name(name, attempt))
}

/// The path of the `attempt`-th name tried for a copy of `name` in `dest_dir`:
/// `name` itself, then "stem - Copy.ext", "stem - Copy (2).ext", ...
pub fn copy_candidate(dest_dir: &str, name: &str, attempt: u128) -> (path: String)
    ensures
        path@ == candidate_path(dest_dir@, name@, attempt as nat),
{
    if attempt == 0 {
        path_join(dest_dir, name)
    } else {
        let (stem, suffix) = stem_and_suffix(name);
        let candidate = copy_name_from(&stem, &suffix, attempt, Ghost(name@));
        path_join(dest_dir, candidate.as_str())
    }
}

/// A step of the search for the path of a copy: ask the file system whether the
/// candidate of this attempt is taken, or the free path found.
pub enum NameSearch {
    Check { attempt: u128, path: String },
    Found { path: String },
}

/// The search for the path of a copy of `name` in `dest_dir` starts with `name` itself.
pub fn start_name_search(dest_dir: &str, name: &str) -> (search: NameSearch)
    ensures
        search matches NameSearch::Check { attempt, path } && attempt == 0 && path@ == candidate_path(dest_dir@, name@, 0),
{
    NameSearch::Check { attempt: 0, path: copy_candidate(dest_dir, name, 0) }
}

/// The next step of the search, once the file system has answered whether the
/// candidate of `attempt` is taken: the next candidate if it is, else that candidate,
/// found free.
pub fn continue_name_search(dest_dir: &str, name: &str, attempt: u128, taken: bool) -> (search: NameSearch)
    requires
        attempt < u128::MAX,
    ensures
        taken ==> (search matches NameSearch::Check { attempt: next, path } && next == attempt + 1
            && path@ == candidate_path(dest_dir@, name@, next as nat)),
        !taken ==> (search matches NameSearch::Found { path } && path@ == candidate_path(dest_dir@, name@, attempt as nat)),
{
    if taken {
        NameSearch::Check { attempt: attempt + 1, path: copy_candidate(dest_dir, name, attempt + 1) }
    } else {
        NameSearch::Found { path: copy_candidate(dest_dir, name, attempt) }
    }
}

/// `k` is the first attempt that the answers `taken` give as free.
pub open spec fn first_free(taken: Seq<bool>, k: int) -> bool {
    0 <= k < taken.len() && !taken[k] && forall|j: int| 0 <= j < k ==> taken[j]
}

/// The path in `dest_dir` under which a copy of `name` lands without overwriting
/// anything, given the file system's answers whether each candidate is taken
/// (`taken[k]` for the candidate of attempt `k`): the first candidate that is free, as
/// the search (`start_name_search`, `continue_name_search`) finds it; none when every
/// answer says taken.
pub fn unique_destination(dest_dir: &str, name: &str, taken: &Vec<bool>) -> (res: Option<String>)
    ensures
        match res {
            Some(path) => exists|k: int| first_free(taken@, k) && path@ == candidate_path(dest_dir@, name@, k as nat),
            None => forall|k: int| 0 <= k < taken@.len() ==> taken@[k],
        },
{
    let mut i: usize = 0;
    while i < taken.len()
        invariant
            i <= taken@.len(),
            forall|j: int| 0 <= j < i ==> taken@[j],
        decreases taken@.len() - i,
    {
        let attempt = i as u128;
        match continue_name_search(dest_dir, name, attempt, taken[i]) {
            NameSearch::Found { path } => {
                assert(first_free(taken@, i as int));
                return Some(path);
            },
            NameSearch::Check { .. } => {},
        }
        i = i + 1;
    }
    None
}

} // verus!
