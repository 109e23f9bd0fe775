//! Access policy: who may read, push to or merge into a branch.
//!
//! The policy is open: every authenticated request is allowed.

use vstd::prelude::*;
use vstd::string::*;

verus! {

/// Actions a user can attempt.
#[derive(Debug, Clone, Copy, PartialEq, Eq, Structural)]
pub enum Action {
    Read,
    Write,
}

/// The outcome of a policy check.
#[derive(Debug)]
pub struct PolicyDecision {
    pub allowed: bool,
    pub reason: String,
}

/// The reason given for every decision under the open policy.
pub open spec fn open_policy_reason() -> Seq<char> {
    "open policy (Phase 1)"@
}

/// Whether the user with this public key (hex) may perform `action` on
/// `branch`: always, under the open policy.
pub fn check_access(public_key_hex: &str, branch: &str, action: Action) -> (d: PolicyDecision)
    ensures
        d.allowed,
        d.reason@ == open_policy_reason(),
{
    PolicyDecision { allowed: true, reason: String::from_str("open policy (Phase 1)") }
}

/// Whether the user may push to `branch`: write access.
pub fn can_push(public_key_hex: &str, branch: &str) -> (d: PolicyDecision)
    ensures
        d.allowed,
        d.reason@ == open_policy_reason(),
{
    check_access(public_key_hex, branch, Action::Write)
}

/// Whether the user may read or fetch `branch`: read access.
pub fn can_read(public_key_hex: &str, branch: &str) -> (d: PolicyDecision)
    ensures
        d.allowed,
        d.reason@ == open_policy_reason(),
{
    check_access(public_key_hex, branch, Action::Read)
}

/// Whether the user may merge into `branch`: merging needs write access.
pub fn can_merge(public_key_hex: &str, branch: &str) -> (d: PolicyDecision)
    ensures
        d.allowed,
        d.reason@ == open_policy_reason(),
{
    check_access(public_key_hex, branch, Action::Write)
}

} // verus!
