//! Rules of the repository commands: what `reset` accepts, when a merge may
//! start, how `status` classifies a file, which parents a commit gets, how
//! old a record reads.

use vstd::prelude::*;
use vstd::string::*;
use crate::checkpoint::{all_digits, digits_value, lemma_digits_value_nonneg, lemma_digits_value_prefix_bound};
use crate::index::Index;
use crate::maps::StrMap;
use crate::refs::{chars_of, starts_with, strip_prefix};
use crate::text::{append_decimal, decimal, str_eq};

verus! {

/// How far `reset` goes.
#[derive(Debug, Clone, Copy, PartialEq, Eq, Structural)]
pub enum ResetMode {
    /// Move the branch only.
    Soft,
    /// Move the branch and unstage everything.
    Mixed,
    /// Move the branch, unstage, and restore the working directory.
    Hard,
}

/// Reads a reset mode: `soft`, `mixed` or `hard`.
pub fn parse_reset_mode(mode: &str) -> (r: Result<ResetMode, String>)
    ensures
        mode@ == "soft"@ ==> r == Ok::<ResetMode, String>(ResetMode::Soft),
        mode@ == "mixed"@ ==> r == Ok::<ResetMode, String>(ResetMode::Mixed),
        mode@ == "hard"@ ==> r == Ok::<ResetMode, String>(ResetMode::Hard),
        mode@ != "soft"@ && mode@ != "mixed"@ && mode@ != "hard"@ ==> (r matches Err(m) && m@ == "Invalid mode: "@
            + mode@ + ". Use soft, mixed, or hard"@),
{
    proof {
        reveal_strlit("soft");
        reveal_strlit("mixed");
        reveal_strlit("hard");
        assert("mixed"@.len() != "soft"@.len());
        assert("mixed"@ != "soft"@);
        assert("hard"@[0] != "soft"@[0]);
        assert("hard"@ != "soft"@);
        assert("hard"@ != "mixed"@);
    }
    if str_eq(mode, "soft") {
        Ok(ResetMode::Soft)
    } else if str_eq(mode, "mixed") {
        Ok(ResetMode::Mixed)
    } else if str_eq(mode, "hard") {
        Ok(ResetMode::Hard)
    } else {
        let mut m = String::from_str("Invalid mode: ");
        m.append(mode);
        m.append(". Use soft, mixed, or hard");
        Err(m)
    }
}

/// What `reset` moves the branch to.
#[derive(Debug)]
pub enum ResetTarget {
    /// The commit HEAD names.
    Head,
    /// The commit that many first parents back from HEAD (`HEAD~n`).
    HeadAncestor(usize),
    /// A commit given by its hash.
    Commit(String),
}

/// `usize` parsing of decimal text: an optional `+`, then digits, with a
/// value that fits.
pub open spec fn spec_parse_usize(s: Seq<char>) -> Option<usize> {
    let d = if s.len() > 0 && s[0] == '+' { s.skip(1) } else { s };
    if all_digits(d) && digits_value(d) <= usize::MAX {
        Some(digits_value(d) as usize)
    } else {
        None
    }
}

/// Parses decimal text as Rust's `usize` parsing does.
pub fn parse_usize(s: &[char]) -> (r: Option<usize>)
    ensures
        r == spec_parse_usize(s@),
{
    let mut start: usize = 0;
    if s.len() > 0 && s[0] == '+' {
        start = 1;
    }
    let ghost d = if s@.len() > 0 && s@[0] == '+' { s@.skip(1) } else { s@ };
    assert(d =~= s@.skip(start as int));
    if start == s.len() {
        return None;
    }
    let mut v: u128 = 0;
    let mut k: usize = start;
    while k < s.len()
        invariant
            start <= k <= s@.len(),
            start < s@.len(),
            d =~= s@.skip(start as int),
            d == (if s@.len() > 0 && s@[0] == '+' { s@.skip(1) } else { s@ }),
            v == digits_value(s@.subrange(start as int, k as int)),
            v <= usize::MAX,
            forall|j: int| start <= j < k ==> '0' <= #[trigger] s@[j] <= '9',
        decreases s@.len() - k,
    {
        let c = s[k];
        if !('0' <= c && c <= '9') {
            assert(d[k - start] == c);
            return None;
        }
        assert(s@.subrange(start as int, k + 1).drop_last() =~= s@.subrange(start as int, k as int));
        let digit = (c as u32 - '0' as u32) as u128;
        let nv = v * 10 + digit;
        if nv > usize::MAX as u128 {
            proof {
                if all_digits(d) {
                    lemma_digits_value_prefix_bound(d, (k + 1 - start) as int);
                    assert(s@.subrange(start as int, k + 1) =~= d.take(k + 1 - start));
                }
            }
            return None;
        }
        v = nv;
        k = k + 1;
    }
    assert(s@.subrange(start as int, s@.len() as int) =~= d);
    Some(v as usize)
}

/// Reads the target of `reset`: `HEAD`, `HEAD~<n>`, or a full commit hash.
/// Abbreviated hashes (under 64 characters) are refused.
pub fn parse_reset_target(commit: &str) -> (r: Result<ResetTarget, String>)
    ensures
        commit@ == "HEAD"@ ==> r matches Ok(ResetTarget::Head),
        commit@ != "HEAD"@ && starts_with(commit@, "HEAD~"@) ==> match spec_parse_usize(commit@.skip(5)) {
            Some(n) => r matches Ok(ResetTarget::HeadAncestor(m)) && m == n,
            None => r matches Err(e) && e@ == "Invalid reference: "@ + commit@,
        },
        commit@ != "HEAD"@ && !starts_with(commit@, "HEAD~"@) && commit@.len() < 64 ==> (r matches Err(e) && e@
            == "Short hashes not yet supported. Please use the full 64-character hash from 'sdal log'."@),
        commit@ != "HEAD"@ && !starts_with(commit@, "HEAD~"@) && commit@.len() >= 64 ==> (r matches Ok(
            ResetTarget::Commit(h),
        ) && h@ == commit@),
{
    proof {
        reveal_strlit("HEAD~");
    }
    if str_eq(commit, "HEAD") {
        return Ok(ResetTarget::Head);
    }
    match strip_prefix(commit, "HEAD~") {
        Some(rest) => {
            let cs = chars_of(rest.as_str());
            match parse_usize(cs.as_slice()) {
                Some(n) => Ok(ResetTarget::HeadAncestor(n)),
                None => {
                    let mut e = String::from_str("Invalid reference: ");
                    e.append(commit);
                    Err(e)
                },
            }
        },
        None => {
            let n = chars_of(commit).len();
            if n < 64 {
                Err(
                    String::from_str(
                        "Short hashes not yet supported. Please use the full 64-character hash from 'sdal log'.",
                    ),
                )
            } else {
                Ok(ResetTarget::Commit(commit.to_string()))
            }
        },
    }
}

/// Why a merge may not start, checked in this order: HEAD must name a
/// branch, not the one being merged; nothing may be staged; no checkpoint
/// may exist.
pub open spec fn spec_merge_refusal(
    current_branch: Option<Seq<char>>,
    branch: Seq<char>,
    index_empty: bool,
    no_checkpoints: bool,
) -> Option<Seq<char>> {
    match current_branch {
        None => Some("Cannot merge in detached HEAD state"@),
        Some(c) => if c == branch {
            Some("Cannot merge branch '"@ + branch + "' into itself"@)
        } else if !index_empty {
            Some("Cannot merge with uncommitted changes. Commit or stash them first."@)
        } else if !no_checkpoints {
            Some("Cannot merge with active checkpoints. Commit or drop them first."@)
        } else {
            None
        },
    }
}

/// Checks that a merge of `branch` may start.
pub fn check_merge_allowed(current_branch: Option<&str>, branch: &str, index_empty: bool, no_checkpoints: bool) -> (r: Result<(), String>)
    ensures
        match spec_merge_refusal(
            match current_branch {
                Some(c) => Some(c@),
                None => None,
            },
            branch@,
            index_empty,
            no_checkpoints,
        ) {
            None => r is Ok,
            Some(m) => r matches Err(e) && e@ == m,
        },
{
    match current_branch {
        None => Err(String::from_str("Cannot merge in detached HEAD state")),
        Some(c) => {
            if str_eq(c, branch) {
                let mut e = String::from_str("Cannot merge branch '");
                e.append(branch);
                e.append("' into itself");
                Err(e)
            } else if !index_empty {
                Err(String::from_str("Cannot merge with uncommitted changes. Commit or stash them first."))
            } else if !no_checkpoints {
                Err(String::from_str("Cannot merge with active checkpoints. Commit or drop them first."))
            } else {
                Ok(())
            }
        },
    }
}

/// How `status` reports a file of the working directory.
#[derive(Debug, Clone, Copy, PartialEq, Eq, Structural)]
pub enum FileStatus {
    /// Staged, and unchanged since.
    Staged,
    /// Changed since it was staged, or since the last commit.
    Modified,
    /// Neither staged nor in the last commit.
    Untracked,
    /// As in the last commit.
    Unchanged,
}

/// The status of a working file, from the blob hash staged for it, the one
/// it has in the last commit, and the hash of its current content (needed
/// only when one of the other two is there).
pub open spec fn spec_file_status(staged: Option<Seq<char>>, head: Option<Seq<char>>, current: Seq<char>) -> FileStatus {
    match staged {
        Some(s) => if current == s {
            FileStatus::Staged
        } else {
            FileStatus::Modified
        },
        None => match head {
            Some(h) => if current != h {
                FileStatus::Modified
            } else {
                FileStatus::Unchanged
            },
            None => FileStatus::Untracked,
        },
    }
}

/// Classifies a working file (see `spec_file_status`).
pub fn file_status(staged: Option<&str>, head: Option<&str>, current: Option<&str>) -> (r: FileStatus)
    requires
        (staged is Some || head is Some) ==> current is Some,
    ensures
        r == spec_file_status(
            match staged {
                Some(s) => Some(s@),
                None => None,
            },
            match head {
                Some(h) => Some(h@),
                None => None,
            },
            match current {
                Some(c) => c@,
                None => Seq::empty(),
            },
        ),
{
    match staged {
        Some(s) => {
            let c = current.unwrap();
            if str_eq(c, s) {
                FileStatus::Staged
            } else {
                FileStatus::Modified
            }
        },
        None => match head {
            Some(h) => {
                let c = current.unwrap();
                if !str_eq(c, h) {
                    FileStatus::Modified
                } else {
                    FileStatus::Unchanged
                }
            },
            None => FileStatus::Untracked,
        },
    }
}

/// Files of the last commit that are gone from the working directory and not
/// staged, in the commit's order.
pub fn deleted_files(head_files: &StrMap<String>, working: &Vec<String>, index: &Index) -> (r: Vec<String>)
    requires
        head_files.wf(),
        index.wf(),
    ensures
        forall|i: int|
            0 <= i < r@.len() ==> head_files.view().dom().contains(#[trigger] r@[i]@) && !index.view().dom().contains(
                r@[i]@,
            ) && forall|j: int| 0 <= j < working@.len() ==> working@[j]@ != r@[i]@,
        forall|p: Seq<char>|
            #[trigger] head_files.view().dom().contains(p) && !index.view().dom().contains(p) && (forall|j: int|
                0 <= j < working@.len() ==> working@[j]@ != p) ==> exists|i: int| 0 <= i < r@.len() && r@[i]@ == p,
        forall|a: int, b: int| 0 <= a < b < r@.len() ==> #[trigger] r@[a]@ != #[trigger] r@[b]@,
{
    let items = head_files.items();
    proof {
        head_files.lemma_pairs();
    }
    let mut out: Vec<String> = Vec::new();
    let mut i: usize = 0;
    while i < items.len()
        invariant
            items@ == head_files.pairs(),
            head_files.wf(),
            index.wf(),
            i <= items@.len(),
            forall|p: Seq<char>| #[trigger] head_files.view().dom().contains(p) <==> crate::maps::has_key(head_files.pairs(), p),
            forall|k: int| 0 <= k < head_files.pairs().len() ==> head_files.view().dom().contains(#[trigger] head_files.pairs()[k].0@),
            forall|k: int|
                0 <= k < out@.len() ==> head_files.view().dom().contains(#[trigger] out@[k]@) && !index.view().dom().contains(
                    out@[k]@,
                ) && forall|j: int| 0 <= j < working@.len() ==> working@[j]@ != out@[k]@,
            forall|k: int|
                0 <= k < i && !index.view().dom().contains(#[trigger] head_files.pairs()[k].0@) && (forall|j: int|
                    0 <= j < working@.len() ==> working@[j]@ != head_files.pairs()[k].0@) ==> exists|m: int|
                    0 <= m < out@.len() && out@[m]@ == head_files.pairs()[k].0@,
            crate::maps::keys_unique(head_files.pairs()),
            forall|k: int| 0 <= k < out@.len() ==> exists|m: int| 0 <= m < i && head_files.pairs()[m].0@ == (#[trigger] out@[k])@,
            forall|a: int, b: int| 0 <= a < b < out@.len() ==> #[trigger] out@[a]@ != #[trigger] out@[b]@,
        decreases items@.len() - i,
    {
        let p = &items[i].0;
        let mut present = false;
        let mut j: usize = 0;
        while j < working.len()
            invariant
                j <= working@.len(),
                present == exists|q: int| 0 <= q < j && working@[q]@ == p@,
            decreases working@.len() - j,
        {
            if str_eq(working[j].as_str(), p.as_str()) {
                present = true;
            }
            j = j + 1;
        }
        if !present && !index.is_staged(p.as_str()) {
            let ghost before = out@;
            proof {
                assert forall|k: int| 0 <= k < before.len() implies (#[trigger] before[k])@ != p@ by {
                    let m = choose|m: int| 0 <= m < i && head_files.pairs()[m].0@ == before[k]@;
                    assert(head_files.pairs()[m].0@ != head_files.pairs()[i as int].0@);
                }
            }
            out.push(p.clone());
            assert(out@[out@.len() - 1]@ == p@);
            assert forall|k: int| 0 <= k < out@.len() implies exists|m: int|
                0 <= m < i + 1 && head_files.pairs()[m].0@ == (#[trigger] out@[k])@ by {
                if k < before.len() {
                    assert(out@[k] == before[k]);
                    let m = choose|m: int| 0 <= m < i && head_files.pairs()[m].0@ == before[k]@;
                } else {
                    assert(head_files.pairs()[i as int].0@ == out@[k]@);
                }
            }
            assert forall|a: int, b: int| 0 <= a < b < out@.len() implies #[trigger] out@[a]@ != #[trigger] out@[b]@ by {
                if b < before.len() {
                    assert(out@[a] == before[a] && out@[b] == before[b]);
                } else {
                    assert(out@[a] == before[a]);
                }
            }
            assert forall|k: int|
                0 <= k < i + 1 && !index.view().dom().contains(#[trigger] head_files.pairs()[k].0@) && (forall|j: int|
                    0 <= j < working@.len() ==> working@[j]@ != head_files.pairs()[k].0@) implies exists|m: int|
                0 <= m < out@.len() && out@[m]@ == head_files.pairs()[k].0@ by {
                if k < i {
                    let m = choose|m: int| 0 <= m < before.len() && before[m]@ == head_files.pairs()[k].0@;
                    assert(out@[m] == before[m]);
                } else {
                    assert(out@[out@.len() - 1]@ == head_files.pairs()[k].0@);
                }
            }
        } else {
            assert forall|k: int|
                0 <= k < i + 1 && !index.view().dom().contains(#[trigger] head_files.pairs()[k].0@) && (forall|j: int|
                    0 <= j < working@.len() ==> working@[j]@ != head_files.pairs()[k].0@) implies exists|m: int|
                0 <= m < out@.len() && out@[m]@ == head_files.pairs()[k].0@ by {
                if k == i {
                    if present {
                        let q = choose|q: int| 0 <= q < working@.len() && working@[q]@ == p@;
                        assert(working@[q]@ == head_files.pairs()[k].0@);
                    }
                }
            }
        }
        i = i + 1;
    }
    assert forall|p: Seq<char>|
        #[trigger] head_files.view().dom().contains(p) && !index.view().dom().contains(p) && (forall|j: int|
            0 <= j < working@.len() ==> working@[j]@ != p) implies exists|i: int| 0 <= i < out@.len() && out@[i]@ == p by {
        let k = choose|k: int| 0 <= k < head_files.pairs().len() && #[trigger] head_files.pairs()[k].0@ == p;
    }
    out
}

/// The parents of a new commit: both sides of a merge in progress, else the
/// current HEAD commit if there is one.
pub fn commit_parents(merge_sides: Option<(&str, &str)>, head: Option<&str>) -> (r: Vec<String>)
    ensures
        merge_sides matches Some((o, t)) ==> r@.len() == 2 && r@[0]@ == o@ && r@[1]@ == t@,
        merge_sides is None ==> (head matches Some(h) ==> r@.len() == 1 && r@[0]@ == h@),
        merge_sides is None && head is None ==> r@.len() == 0,
{
    let mut r: Vec<String> = Vec::new();
    match merge_sides {
        Some((o, t)) => {
            r.push(o.to_string());
            r.push(t.to_string());
        },
        None => match head {
            Some(h) => {
                r.push(h.to_string());
            },
            None => {},
        },
    }
    r
}

/// An integer in decimal, with `-` in front when it is negative.
pub open spec fn signed_decimal(i: int) -> Seq<char> {
    if i < 0 {
        seq!['-'] + decimal((-i) as nat)
    } else {
        decimal(i as nat)
    }
}

/// Integer division rounded toward zero, as Rust divides, for a positive
/// divisor.
pub open spec fn div_toward_zero(a: int, b: int) -> int {
    if a >= 0 {
        a / b
    } else {
        -((-a) / b)
    }
}

/// How long ago something happened, `diff` seconds back: seconds (only
/// where asked for) under a minute, then minutes, hours, days, each rounded
/// toward zero.
pub open spec fn spec_age_text(diff: int, with_seconds: bool) -> Seq<char> {
    if with_seconds && diff < 60 {
        signed_decimal(diff) + " secs ago"@
    } else if diff < 3600 {
        signed_decimal(div_toward_zero(diff, 60)) + " mins ago"@
    } else if diff < 86400 {
        signed_decimal(diff / 3600) + " hours ago"@
    } else {
        signed_decimal(diff / 86400) + " days ago"@
    }
}

/// Appends `diff / unit`, rounded toward zero, in decimal.
fn append_quotient(s: &mut String, diff: i64, unit: u64)
    requires
        unit > 0,
    ensures
        final(s)@ == old(s)@ + signed_decimal(div_toward_zero(diff as int, unit as int)),
{
    if diff >= 0 {
        append_decimal(s, (diff as u64) / unit);
    } else {
        let magnitude: u64 = (-(diff + 1)) as u64 + 1;
        assert(magnitude == -diff);
        let q = magnitude / unit;
        if q > 0 {
            crate::refs::push_char(s, '-');
            append_decimal(s, q);
        } else {
            append_decimal(s, 0);
        }
    }
}

/// The age of a record `diff` seconds old, as the status listing shows it.
pub fn age_text(diff: i64, with_seconds: bool) -> (r: String)
    ensures
        r@ == spec_age_text(diff as int, with_seconds),
{
    let mut out = String::new();
    proof {
        reveal_strlit(" secs ago");
        reveal_strlit(" mins ago");
        reveal_strlit(" hours ago");
        reveal_strlit(" days ago");
    }
    if with_seconds && diff < 60 {
        append_quotient(&mut out, diff, 1);
        out.append(" secs ago");
    } else if diff < 3600 {
        append_quotient(&mut out, diff, 60);
        out.append(" mins ago");
    } else if diff < 86400 {
        append_quotient(&mut out, diff, 3600);
        out.append(" hours ago");
    } else {
        append_quotient(&mut out, diff, 86400);
        out.append(" days ago");
    }
    out
}

} // verus!
