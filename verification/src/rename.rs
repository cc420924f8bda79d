//! Renaming an entry: which new names are accepted, and where the entry goes.

use vstd::prelude::*;
use crate::text::chars_of;
use crate::paths::{joined, parent_of, path_join, path_parent};

verus! {

/// The characters that a name may not hold: `\ / : * ? " < > |`.
pub open spec fn forbidden_char(c: char) -> bool {
    c == '\\' || c == '/' || c == ':' || c == '*' || c == '?' || c == '"' || c == '<' || c == '>' || c == '|'
}

/// A new name is accepted when it is not empty, not `.` or `..`, and holds no
/// forbidden character.
pub open spec fn valid_new_name(name: Seq<char>) -> bool {
    &&& name.len() > 0
    &&& name != seq!['.']
    &&& name != seq!['.', '.']
    &&& forall|i: int| 0 <= i < name.len() ==> !forbidden_char(#[trigger] name[i])
}

fn is_forbidden(c: char) -> (res: bool)
    ensures
        res == forbidden_char(c),
{
    c == '\\' || c == '/' || c == ':' || c == '*' || c == '?' || c == '"' || c == '<' || c == '>' || c == '|'
}

/// Whether `name` is accepted as a new name (see `valid_new_name`).
pub fn is_valid_new_name(name: &str) -> (res: bool)
    ensures
        res == valid_new_name(name@),
{
    let chars = chars_of(name);
    let n = chars.len();
    if n == 0 {
        return false;
    }
    if n == 1 && chars[0] == '.' {
        assert(chars@ =~= seq!['.']);
        return false;
    }
    if n == 2 && chars[0] == '.' && chars[1] == '.' {
        assert(chars@ =~= seq!['.', '.']);
        return false;
    }
    assert(chars@ != seq!['.']);
    assert(chars@ != seq!['.', '.']);
    let mut i: usize = 0;
    while i < n
        invariant
            i <= n,
            n == chars@.len(),
            chars@ == name@,
            forall|k: int| 0 <= k < i ==> !forbidden_char(#[trigger] chars@[k]),
        decreases n - i,
    {
        if is_forbidden(chars[i]) {
            assert(forbidden_char(name@[i as int]));
            return false;
        }
        i = i + 1;
    }
    true
}

/// Where renaming the entry at `path` to `new_name` moves it: `new_name` in the same
/// folder. Fails with "Invalid folder name" when the name is not accepted, and with
/// "Invalid folder path" when the path has no parent.
pub fn rename_target(path: &str, new_name: &str) -> (res: Result<String, String>)
    ensures
        match res {
            Ok(target) => valid_new_name(new_name@) && (parent_of(path@) matches Some(parent)
                && target@ == joined(parent, new_name@)),
            Err(message) => (!valid_new_name(new_name@) && message@ == "Invalid folder name"@)
                || (valid_new_name(new_name@) && parent_of(path@) is None && message@ == "Invalid folder path"@),
        },
{
    if !is_valid_new_name(new_name) {
        return Err(String::from_str("Invalid folder name"));
    }
    match path_parent(path) {
        Some(parent) => Ok(path_join(parent.as_str(), new_name)),
        None => Err(String::from_str("Invalid folder path")),
    }
}

/// The nine characters that names may not hold.
pub open spec fn refused_chars() -> Seq<char> {
    seq!['\\', '/', ':', '*', '?', '"', '<', '>', '|']
}

/// Which new names are refused: a name is accepted exactly when it is not empty, not
/// `.` or `..`, and none of its characters is one of the nine `\ / : * ? " < > |`;
/// every other character, the space among them, may stand in a name.
pub proof fn lemma_accepted_names(name: Seq<char>)
    ensures
        valid_new_name(name) <==> (name.len() > 0 && name != seq!['.'] && name != seq!['.', '.']
            && forall|i: int| 0 <= i < name.len() ==> !refused_chars().contains(#[trigger] name[i])),
        forall|c: char| #[trigger] forbidden_char(c) <==> refused_chars().contains(c),
{
    assert forall|c: char| #[trigger] forbidden_char(c) <==> refused_chars().contains(c) by {
        let r = refused_chars();
        if forbidden_char(c) {
            if c == '\\' { assert(r[0] == c); }
            else if c == '/' { assert(r[1] == c); }
            else if c == ':' { assert(r[2] == c); }
            else if c == '*' { assert(r[3] == c); }
            else if c == '?' { assert(r[4] == c); }
            else if c == '"' { assert(r[5] == c); }
            else if c == '<' { assert(r[6] == c); }
            else if c == '>' { assert(r[7] == c); }
            else { assert(r[8] == c); }
        }
        if r.contains(c) {
            let k = choose|k: int| 0 <= k < r.len() && r[k] == c;
            assert(0 <= k < 9);
        }
    }
}

} // verus!
