//! Splitting a `repository::backup::path` argument into its parts.
use vstd::prelude::*;
use vstd::string::StrSliceExecFns;

use crate::text::{find_separator, separator_from};

verus! {

/// The parts of `t` around the first two `::` separators: the repository, then the backup
/// and the path inside it where present. The path keeps any later separators.
pub open spec fn split_parts(t: Seq<char>) -> (Seq<char>, Option<Seq<char>>, Option<Seq<char>>) {
    match separator_from(t, 0) {
        None => (t, None, None),
        Some(p) => {
            let rest = t.skip((p + 2) as int);
            match separator_from(rest, 0) {
                None => (t.take(p as int), Some(rest), None),
                Some(q) => (t.take(p as int), Some(rest.take(q as int)), Some(rest.skip((q + 2) as int))),
            }
        },
    }
}

/// The view of an optional string.
pub open spec fn opt_view(s: Option<&str>) -> Option<Seq<char>> {
    match s {
        Some(v) => Some(v@),
        None => None,
    }
}

/// Splits `repo::backup::path` into at most three parts at the first two `::` separators.
pub fn split_repo_path(repo_path: &str) -> (r: (&str, Option<&str>, Option<&str>))
    ensures
        (r.0@, opt_view(r.1), opt_view(r.2)) == split_parts(repo_path@),
{
    let n = repo_path.unicode_len();
    match find_separator(repo_path) {
        None => (repo_path, None, None),
        Some(p) => {
            let repo = repo_path.substring_char(0, p);
            let rest = repo_path.substring_char(p + 2, n);
            assert(rest@ =~= repo_path@.skip(p + 2));
            let m = rest.unicode_len();
            match find_separator(rest) {
                None => (repo, Some(rest), None),
                Some(q) => {
                    let backup = rest.substring_char(0, q);
                    let inode = rest.substring_char(q + 2, m);
                    assert(inode@ =~= rest@.skip(q + 2));
                    (repo, Some(backup), Some(inode))
                },
            }
        },
    }
}

} // verus!
