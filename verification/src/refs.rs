//! Rules for references: commit hashes, branch names and the contents of HEAD.

use vstd::prelude::*;
use vstd::utf8::encode_utf8;
use crate::hashing::is_hex_char;
use crate::paths::{join, join_path};
use vstd::string::*;

verus! {

/// A SHA-256 hash spelled in hex: 64 bytes, all hex digits.
pub open spec fn spec_is_valid_hash(s: Seq<char>) -> bool {
    &&& encode_utf8(s).len() == 64
    &&& forall|i: int| 0 <= i < s.len() ==> is_hex_char(#[trigger] s[i])
}

/// Whether `s` is a hex SHA-256 hash (either case).
pub fn is_valid_hash(s: &str) -> (r: bool)
    ensures
        r == spec_is_valid_hash(s@),
{
    if s.as_bytes().len() != 64 {
        return false;
    }
    let mut ok = true;
    for c in it: s.chars()
        invariant
            it.seq() == s@,
            encode_utf8(s@).len() == 64,
            ok == (forall|j: int| 0 <= j < it.index() ==> is_hex_char(#[trigger] s@[j])),
    {
        if !(('0' <= c && c <= '9') || ('a' <= c && c <= 'f') || ('A' <= c && c <= 'F')) {
            ok = false;
        }
    }
    ok
}

/// A hex hash is ASCII, so it has 64 characters as well as 64 bytes.
pub proof fn lemma_valid_hash_len(s: Seq<char>)
    requires
        spec_is_valid_hash(s),
    ensures
        s.len() == 64,
        vstd::utf8::is_ascii_chars(s),
{
    assert(vstd::utf8::is_ascii_chars(s));
    vstd::utf8::is_ascii_chars_encode_utf8(s);
}

/// Why a reference operation is refused.
#[derive(Debug)]
pub enum RefError {
    /// The branch name is empty.
    EmptyBranchName,
    /// The branch name holds `/` or `\`.
    BranchNameHasSeparator,
    /// The branch name holds `..`.
    BranchNameHasDotDot,
    /// The branch name starts with `.`.
    BranchNameStartsWithDot,
    /// A commit hash is not 64 hex digits.
    InvalidCommitHash(String),
    /// HEAD may only be set to `ref: <path>` or a commit hash.
    InvalidHeadTarget,
}

/// Whether `s` holds two dots in a row.
pub open spec fn has_dot_dot(s: Seq<char>) -> bool {
    exists|i: int| 0 <= i < s.len() - 1 && s[i] == '.' && #[trigger] s[i + 1] == '.'
}

/// The verdict on a branch name, checked in this order: empty, path
/// separator, `..`, leading dot.
pub open spec fn spec_branch_name_check(name: Seq<char>) -> Option<RefError> {
    if name.len() == 0 {
        Some(RefError::EmptyBranchName)
    } else if crate::objects::has_separator(name) {
        Some(RefError::BranchNameHasSeparator)
    } else if has_dot_dot(name) {
        Some(RefError::BranchNameHasDotDot)
    } else if name[0] == '.' {
        Some(RefError::BranchNameStartsWithDot)
    } else {
        None
    }
}

/// Collects the characters of a string.
pub fn chars_of(s: &str) -> (r: Vec<char>)
    ensures
        r@ == s@,
{
    let mut out: Vec<char> = Vec::new();
    for c in it: s.chars()
        invariant
            it.seq() == s@,
            out@ == s@.take(it.index() as int),
    {
        out.push(c);
    }
    assert(s@.take(s@.len() as int) =~= s@);
    out
}

/// Checks a branch name: non-empty, no path separators, no `..`, no leading
/// dot. These keep branch files inside `refs/heads`.
pub fn validate_branch_name(name: &str) -> (r: Result<(), RefError>)
    ensures
        match spec_branch_name_check(name@) {
            None => r is Ok,
            Some(e) => r == Err::<(), RefError>(e),
        },
{
    let cs = chars_of(name);
    if cs.len() == 0 {
        return Err(RefError::EmptyBranchName);
    }
    if crate::objects::contains_separator(name) {
        return Err(RefError::BranchNameHasSeparator);
    }
    let mut i: usize = 0;
    while i < cs.len() - 1
        invariant
            cs@ == name@,
            cs@.len() >= 1,
            !crate::objects::has_separator(name@),
            i + 1 <= cs@.len(),
            forall|j: int| 0 <= j < i ==> !(cs@[j] == '.' && #[trigger] cs@[j + 1] == '.'),
        decreases cs@.len() - i,
    {
        if cs[i] == '.' && cs[i + 1] == '.' {
            assert(name@[i as int] == '.' && name@[i + 1] == '.');
            return Err(RefError::BranchNameHasDotDot);
        }
        i = i + 1;
    }
    assert(!has_dot_dot(name@)) by {
        if has_dot_dot(name@) {
            let k = choose|k: int| 0 <= k < name@.len() - 1 && name@[k] == '.' && #[trigger] name@[k + 1] == '.';
            assert(!(cs@[k] == '.' && cs@[k + 1] == '.'));
        }
    }
    if cs[0] == '.' {
        return Err(RefError::BranchNameStartsWithDot);
    }
    Ok(())
}

/// `s` begins with `prefix`.
pub open spec fn starts_with(s: Seq<char>, prefix: Seq<char>) -> bool {
    prefix.len() <= s.len() && s.take(prefix.len() as int) == prefix
}

/// Whether `s` begins with `prefix`; if so, the rest of `s`.
pub fn strip_prefix(s: &str, prefix: &str) -> (r: Option<String>)
    ensures
        starts_with(s@, prefix@) ==> (r matches Some(rest) && rest@ == s@.skip(prefix@.len() as int)),
        !starts_with(s@, prefix@) ==> r is None,
{
    let cs = chars_of(s);
    let ps = chars_of(prefix);
    if ps.len() > cs.len() {
        return None;
    }
    let mut i: usize = 0;
    while i < ps.len()
        invariant
            cs@ == s@,
            ps@ == prefix@,
            ps@.len() <= cs@.len(),
            i <= ps@.len(),
            forall|j: int| 0 <= j < i ==> cs@[j] == ps@[j],
        decreases ps@.len() - i,
    {
        if cs[i] != ps[i] {
            assert(s@.take(prefix@.len() as int)[i as int] != prefix@[i as int]);
            return None;
        }
        i = i + 1;
    }
    assert(s@.take(prefix@.len() as int) =~= prefix@);
    let mut rest = String::new();
    let mut k: usize = ps.len();
    while k < cs.len()
        invariant
            cs@ == s@,
            ps@.len() <= k <= cs@.len(),
            rest@ == s@.subrange(ps@.len() as int, k as int),
        decreases cs@.len() - k,
    {
        push_char(&mut rest, cs[k]);
        assert(s@.subrange(ps@.len() as int, k + 1) =~= s@.subrange(ps@.len() as int, k as int).push(cs@[k as int]));
        k = k + 1;
    }
    assert(s@.subrange(ps@.len() as int, cs@.len() as int) =~= s@.skip(prefix@.len() as int));
    Some(rest)
}

/// Appends a character with `String::push`.
/// Trusted: the string gains exactly that character at its end.
#[verifier::external_body]
pub(crate) fn push_char(s: &mut String, c: char)
    ensures
        final(s)@ == old(s)@.push(c),
{
    s.push(c)
}

/// What HEAD holds: a symbolic reference to a ref path, or a commit hash.
#[derive(Debug)]
pub enum HeadTarget {
    Ref(String),
    Commit(String),
}

/// Reads HEAD's (trimmed) content: `ref: <path>` names a ref, anything else
/// must be a commit hash.
pub fn parse_head(content: &str) -> (r: Result<HeadTarget, RefError>)
    ensures
        starts_with(content@, "ref: "@) ==> (r matches Ok(HeadTarget::Ref(p)) && p@ == content@.skip(5)),
        !starts_with(content@, "ref: "@) && spec_is_valid_hash(content@) ==> (r matches Ok(HeadTarget::Commit(h))
            && h@ == content@),
        !starts_with(content@, "ref: "@) && !spec_is_valid_hash(content@) ==> (r matches Err(
            RefError::InvalidCommitHash(c),
        ) && c@ == content@),
{
    proof {
        reveal_strlit("ref: ");
    }
    match strip_prefix(content, "ref: ") {
        Some(rest) => Ok(HeadTarget::Ref(rest)),
        None => {
            if is_valid_hash(content) {
                Ok(HeadTarget::Commit(content.to_owned()))
            } else {
                Err(RefError::InvalidCommitHash(content.to_owned()))
            }
        },
    }
}

/// The branch that HEAD's (trimmed) content points to: `ref: refs/heads/<b>`
/// gives `b`; anything else gives none.
pub fn current_branch_of(content: &str) -> (r: Option<String>)
    ensures
        starts_with(content@, "ref: refs/heads/"@) ==> (r matches Some(b) && b@ == content@.skip(16)),
        !starts_with(content@, "ref: refs/heads/"@) ==> r is None,
{
    proof {
        reveal_strlit("ref: refs/heads/");
    }
    strip_prefix(content, "ref: refs/heads/")
}

/// Checks what HEAD may be set to: `ref: ...` or a commit hash.
pub fn validate_head_target(target: &str) -> (r: Result<(), RefError>)
    ensures
        r is Ok <==> (starts_with(target@, "ref: "@) || spec_is_valid_hash(target@)),
        r matches Err(e) ==> e is InvalidHeadTarget,
{
    proof {
        reveal_strlit("ref: ");
    }
    if strip_prefix(target, "ref: ").is_some() || is_valid_hash(target) {
        Ok(())
    } else {
        Err(RefError::InvalidHeadTarget)
    }
}

/// Checks a commit hash to be stored in a ref: empty (no commit yet) or a
/// valid hash.
pub fn validate_ref_hash(commit_hash: &str) -> (r: Result<(), RefError>)
    ensures
        r is Ok <==> (commit_hash@.len() == 0 || spec_is_valid_hash(commit_hash@)),
        r matches Err(e) ==> (e matches RefError::InvalidCommitHash(c) && c@ == commit_hash@),
{
    if !commit_hash.is_empty() && !is_valid_hash(commit_hash) {
        return Err(RefError::InvalidCommitHash(commit_hash.to_owned()));
    }
    Ok(())
}

/// What a ref file holds, once trimmed: nothing yet (empty) or a commit
/// hash; anything else is an invalid hash.
pub fn ref_value(content: &str) -> (r: Result<Option<String>, RefError>)
    ensures
        content@.len() == 0 ==> r matches Ok(None),
        content@.len() > 0 && spec_is_valid_hash(content@) ==> (r matches Ok(Some(h)) && h@ == content@),
        content@.len() > 0 && !spec_is_valid_hash(content@) ==> (r matches Err(RefError::InvalidCommitHash(c))
            && c@ == content@),
{
    if content.is_empty() {
        Ok(None)
    } else if is_valid_hash(content) {
        Ok(Some(content.to_owned()))
    } else {
        Err(RefError::InvalidCommitHash(content.to_owned()))
    }
}

/// The name of a branch's ref: `refs/heads/<name>`.
pub fn branch_ref(name: &str) -> (r: String)
    ensures
        r@ == "refs/heads/"@ + name@,
{
    let mut r = String::from_str("refs/heads/");
    r.append(name);
    r
}

/// What HEAD holds when a branch is checked out: `ref: refs/heads/<name>`.
pub fn head_ref_to(name: &str) -> (r: String)
    ensures
        r@ == "ref: refs/heads/"@ + name@,
{
    let mut r = String::from_str("ref: refs/heads/");
    r.append(name);
    r
}

/// Where HEAD and the refs of one repository live.
pub struct Refs {
    repo_root: String,
}

impl Refs {
    /// The repository directory.
    pub closed spec fn root(&self) -> Seq<char> {
        self.repo_root@
    }

    pub fn new(repo_root: &str) -> (r: Self)
        ensures
            r.root() == repo_root@,
    {
        Refs { repo_root: repo_root.to_string() }
    }

    /// The HEAD file.
    pub fn head_path(&self) -> (p: String)
        ensures
            p@ == join_path(self.root(), "HEAD"@),
    {
        join(self.repo_root.as_str(), "HEAD")
    }

    /// The file of a ref given by its path below the repository, such as
    /// `refs/heads/main`.
    pub fn ref_path(&self, name: &str) -> (p: String)
        ensures
            p@ == join_path(self.root(), name@),
    {
        join(self.repo_root.as_str(), name)
    }

    /// The file of a branch, for a valid branch name only.
    pub fn branch_path(&self, name: &str) -> (r: Result<String, RefError>)
        ensures
            match spec_branch_name_check(name@) {
                None => r matches Ok(p) && p@ == join_path(join_path(self.root(), "refs/heads"@), name@),
                Some(e) => r == Err::<String, RefError>(e),
            },
    {
        match validate_branch_name(name) {
            Ok(()) => {},
            Err(e) => {
                return Err(e);
            },
        }
        let heads = join(self.repo_root.as_str(), "refs/heads");
        Ok(join(heads.as_str(), name))
    }
}

} // verus!
