//! The fixed table of semantic highlight token names the pages use, and the
//! lookup from a label name to its token number: the index of the first
//! matching table entry.

use vstd::prelude::*;
use vstd::string::StringExecFns;

use crate::text::str_eq;

verus! {

/// Number of entries in the token table.
pub open spec fn legend_len() -> int {
    80
}

/// The name of the table entry at index `i`.
pub open spec fn legend_name(i: int) -> Seq<char> {
    if i == 0 {
        "function"@
    } else if i == 1 {
        "variable"@
    } else if i == 2 {
        "access-denied"@
    } else if i == 3 {
        "added"@
    } else if i == 4 {
        "author"@
    } else if i == 5 {
        "bar"@
    } else if i == 6 {
        "binary"@
    } else if i == 7 {
        "bookmark_list"@
    } else if i == 8 {
        "bookmark"@
    } else if i == 9 {
        "bookmarks"@
    } else if i == 10 {
        "branch"@
    } else if i == 11 {
        "branches"@
    } else if i == 12 {
        "change_id"@
    } else if i == 13 {
        "commit_id"@
    } else if i == 14 {
        "committer"@
    } else if i == 15 {
        "config_list"@
    } else if i == 16 {
        "conflict_description"@
    } else if i == 17 {
        "conflict"@
    } else if i == 18 {
        "copied"@
    } else if i == 19 {
        "current_operation"@
    } else if i == 20 {
        "difficult"@
    } else if i == 21 {
        "divergent"@
    } else if i == 22 {
        "domain"@
    } else if i == 23 {
        "elided"@
    } else if i == 24 {
        "empty"@
    } else if i == 25 {
        "error_source"@
    } else if i == 26 {
        "error"@
    } else if i == 27 {
        "file_header"@
    } else if i == 28 {
        "foo"@
    } else if i == 29 {
        "git_head"@
    } else if i == 30 {
        "git_refs"@
    } else if i == 31 {
        "header"@
    } else if i == 32 {
        "heading"@
    } else if i == 33 {
        "hint"@
    } else if i == 34 {
        "hunk_header"@
    } else if i == 35 {
        "id"@
    } else if i == 36 {
        "immutable"@
    } else if i == 37 {
        "inner"@
    } else if i == 38 {
        "line_number"@
    } else if i == 39 {
        "local_bookmarks"@
    } else if i == 40 {
        "local_branches"@
    } else if i == 41 {
        "local"@
    } else if i == 42 {
        "log"@
    } else if i == 43 {
        "modified"@
    } else if i == 44 {
        "name"@
    } else if i == 45 {
        "node"@
    } else if i == 46 {
        "op_log"@
    } else if i == 47 {
        "operation"@
    } else if i == 48 {
        "overridden"@
    } else if i == 49 {
        "placeholder"@
    } else if i == 50 {
        "prefix"@
    } else if i == 51 {
        "remote_bookmarks"@
    } else if i == 52 {
        "remote_branches"@
    } else if i == 53 {
        "remote"@
    } else if i == 54 {
        "removed"@
    } else if i == 55 {
        "renamed"@
    } else if i == 56 {
        "rest"@
    } else if i == 57 {
        "root"@
    } else if i == 58 {
        "separator"@
    } else if i == 59 {
        "stat-summary"@
    } else if i == 60 {
        "tag_list"@
    } else if i == 61 {
        "tag"@
    } else if i == 62 {
        "tags"@
    } else if i == 63 {
        "time"@
    } else if i == 64 {
        "timestamp"@
    } else if i == 65 {
        "token"@
    } else if i == 66 {
        "user"@
    } else if i == 67 {
        "value"@
    } else if i == 68 {
        "warning"@
    } else if i == 69 {
        "working_copies"@
    } else if i == 70 {
        "working_copy"@
    } else if i == 71 {
        "ago"@
    } else if i == 72 {
        "context"@
    } else if i == 73 {
        "description"@
    } else if i == 74 {
        "diff"@
    } else if i == 75 {
        "first_line"@
    } else if i == 76 {
        "shortest"@
    } else if i == 77 {
        "summary"@
    } else if i == 78 {
        "deleted"@
    } else if i == 79 {
        "created"@
    } else {
        Seq::empty()
    }
}

/// Index of the first table entry named `name`, searching from `i` on.
pub open spec fn find_token_from(name: Seq<char>, i: int) -> Option<u32>
    decreases legend_len() - i,
{
    if i < 0 || i >= legend_len() {
        None
    } else if legend_name(i) == name {
        Some(i as u32)
    } else {
        find_token_from(name, i + 1)
    }
}

/// Index of the first table entry named `name`, if any.
pub open spec fn spec_token_index(name: Seq<char>) -> Option<u32> {
    find_token_from(name, 0)
}

/// The token for `name`, or token 0 where the table has no such entry.
pub open spec fn spec_token_or_default(name: Seq<char>) -> u32 {
    match spec_token_index(name) {
        Some(t) => t,
        None => 0,
    }
}

/// The token table in order: entry `i` holds `legend_name(i)`.
#[verifier::rlimit(50)]
pub fn legend() -> (r: Vec<String>)
    ensures
        r@.len() == legend_len(),
        forall|i: int| 0 <= i < legend_len() ==> (#[trigger] r@[i])@ == legend_name(i),
{
    let mut v: Vec<String> = Vec::new();
    v.push(String::from_str("function"));
    v.push(String::from_str("variable"));
    v.push(String::from_str("access-denied"));
    v.push(String::from_str("added"));
    v.push(String::from_str("author"));
    v.push(String::from_str("bar"));
    v.push(String::from_str("binary"));
    v.push(String::from_str("bookmark_list"));
    v.push(String::from_str("bookmark"));
    v.push(String::from_str("bookmarks"));
    v.push(String::from_str("branch"));
    v.push(String::from_str("branches"));
    v.push(String::from_str("change_id"));
    v.push(String::from_str("commit_id"));
    v.push(String::from_str("committer"));
    v.push(String::from_str("config_list"));
    v.push(String::from_str("conflict_description"));
    v.push(String::from_str("conflict"));
    v.push(String::from_str("copied"));
    v.push(String::from_str("current_operation"));
    v.push(String::from_str("difficult"));
    v.push(String::from_str("divergent"));
    v.push(String::from_str("domain"));
    v.push(String::from_str("elided"));
    v.push(String::from_str("empty"));
    v.push(String::from_str("error_source"));
    v.push(String::from_str("error"));
    v.push(String::from_str("file_header"));
    v.push(String::from_str("foo"));
    v.push(String::from_str("git_head"));
    v.push(String::from_str("git_refs"));
    v.push(String::from_str("header"));
    v.push(String::from_str("heading"));
    v.push(String::from_str("hint"));
    v.push(String::from_str("hunk_header"));
    v.push(String::from_str("id"));
    v.push(String::from_str("immutable"));
    v.push(String::from_str("inner"));
    v.push(String::from_str("line_number"));
    v.push(String::from_str("local_bookmarks"));
    v.push(String::from_str("local_branches"));
    v.push(String::from_str("local"));
    v.push(String::from_str("log"));
    v.push(String::from_str("modified"));
    v.push(String::from_str("name"));
    v.push(String::from_str("node"));
    v.push(String::from_str("op_log"));
    v.push(String::from_str("operation"));
    v.push(String::from_str("overridden"));
    v.push(String::from_str("placeholder"));
    v.push(String::from_str("prefix"));
    v.push(String::from_str("remote_bookmarks"));
    v.push(String::from_str("remote_branches"));
    v.push(String::from_str("remote"));
    v.push(String::from_str("removed"));
    v.push(String::from_str("renamed"));
    v.push(String::from_str("rest"));
    v.push(String::from_str("root"));
    v.push(String::from_str("separator"));
    v.push(String::from_str("stat-summary"));
    v.push(String::from_str("tag_list"));
    v.push(String::from_str("tag"));
    v.push(String::from_str("tags"));
    v.push(String::from_str("time"));
    v.push(String::from_str("timestamp"));
    v.push(String::from_str("token"));
    v.push(String::from_str("user"));
    v.push(String::from_str("value"));
    v.push(String::from_str("warning"));
    v.push(String::from_str("working_copies"));
    v.push(String::from_str("working_copy"));
    v.push(String::from_str("ago"));
    v.push(String::from_str("context"));
    v.push(String::from_str("description"));
    v.push(String::from_str("diff"));
    v.push(String::from_str("first_line"));
    v.push(String::from_str("shortest"));
    v.push(String::from_str("summary"));
    v.push(String::from_str("deleted"));
    v.push(String::from_str("created"));
    v
}

/// The token number for `name`: the position of the first table entry with
/// that name, or `None` when the table has no such entry.
pub fn try_get(name: &str) -> (r: Option<u32>)
    ensures
        r == spec_token_index(name@),
{
    let table = legend();
    let mut i: usize = 0;
    while i < table.len()
        invariant
            0 <= i <= table.len(),
            table@.len() == legend_len(),
            forall|j: int| 0 <= j < legend_len() ==> (#[trigger] table@[j])@ == legend_name(j),
            find_token_from(name@, 0) == find_token_from(name@, i as int),
        decreases table.len() - i,
    {
        if str_eq(table[i].as_str(), name) {
            return Some(i as u32);
        }
        i = i + 1;
    }
    None
}

/// The token number for a name the table is known to hold.
pub fn get(name: &str) -> (r: u32)
    requires
        spec_token_index(name@) is Some,
    ensures
        Some(r) == spec_token_index(name@),
{
    let r = try_get(name);
    match r {
        Some(t) => t,
        None => {
            proof {
                assert(false);
            }
            0
        },
    }
}

/// The token number for `name`, falling back to token 0 for a name the
/// table does not hold.
pub fn get_or_default(name: &str) -> (r: u32)
    ensures
        r == spec_token_or_default(name@),
{
    let r = try_get(name);
    match r {
        Some(t) => t,
        None => 0,
    }
}

} // verus!
