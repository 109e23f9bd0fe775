//! Repository paths, spelled as strings with `/` between components.

use vstd::prelude::*;
use vstd::string::*;
use crate::refs::{chars_of, push_char};

verus! {

/// `base` joined with `part` as `Path::join` does on Unix: an absolute
/// `part` replaces `base`; otherwise one `/` goes between them unless `base`
/// is empty or already ends with one.
pub open spec fn join_path(base: Seq<char>, part: Seq<char>) -> Seq<char> {
    if part.len() > 0 && part[0] == '/' {
        part
    } else if base.len() == 0 {
        part
    } else if base.last() == '/' {
        base + part
    } else {
        base.push('/') + part
    }
}

/// Joins two paths (see `join_path`).
pub fn join(base: &str, part: &str) -> (r: String)
    ensures
        r@ == join_path(base@, part@),
{
    let pc = chars_of(part);
    if pc.len() > 0 && pc[0] == '/' {
        return part.to_string();
    }
    let bc = chars_of(base);
    if bc.len() == 0 {
        return part.to_string();
    }
    let mut r = base.to_string();
    if bc[bc.len() - 1] != '/' {
        push_char(&mut r, '/');
    }
    r.append(part);
    r
}

/// The path of an entry inside a directory given by its path from the top
/// (empty for the top itself): `prefix/name`.
pub open spec fn spec_child_path(prefix: Seq<char>, name: Seq<char>) -> Seq<char> {
    if prefix.len() == 0 {
        name
    } else {
        prefix.push('/') + name
    }
}

/// The path of an entry inside a directory (see `spec_child_path`).
pub fn child_path(prefix: &str, name: &str) -> (r: String)
    ensures
        r@ == spec_child_path(prefix@, name@),
{
    if prefix.is_empty() {
        return name.to_string();
    }
    let mut r = prefix.to_string();
    push_char(&mut r, '/');
    r.append(name);
    r
}

/// Whether a path (relative to the working directory) lies in the
/// repository's own directory: `.sdal` or below it.
pub open spec fn spec_in_repository_dir(rel: Seq<char>) -> bool {
    rel == ".sdal"@ || crate::refs::starts_with(rel, ".sdal/"@)
}

/// Whether a path lies in the repository's own directory.
pub fn in_repository_dir(rel: &str) -> (r: bool)
    ensures
        r == spec_in_repository_dir(rel@),
{
    proof {
        reveal_strlit(".sdal/");
    }
    crate::text::str_eq(rel, ".sdal") || crate::refs::strip_prefix(rel, ".sdal/").is_some()
}

/// File names a clean checkout never deletes: the repository directory and
/// the ignore file.
pub fn kept_on_clean_checkout(name: &str) -> (r: bool)
    ensures
        r == (name@ == ".sdal"@ || name@ == ".sdalignore"@),
{
    crate::text::str_eq(name, ".sdal") || crate::text::str_eq(name, ".sdalignore")
}

} // verus!
