//! Ghost checkpoints: local snapshots of the working directory kept outside
//! the commit history, and the rules their records must follow.

use vstd::prelude::*;
use vstd::string::*;
use crate::refs::{chars_of, push_char, spec_is_valid_hash, is_valid_hash, starts_with};
use crate::text::{decimal, push_decimal, str_eq};
use crate::paths::{join, join_path};

verus! {

/// One checkpoint record.
#[derive(Debug)]
pub struct Checkpoint {
    pub id: String,
    /// Tree hash of the snapshot.
    pub tree_root: String,
    /// HEAD when the checkpoint was made (none before the first commit).
    pub parent_commit: Option<String>,
    pub timestamp: i64,
    pub message: Option<String>,
}

/// All checkpoints, in creation order, the current one, and the largest
/// `cp_<n>` number ever recorded, which deletions do not lower, so that ids
/// are never handed out twice.
#[derive(Debug)]
pub struct CheckpointIndex {
    pub current: Option<String>,
    pub checkpoints: Vec<Checkpoint>,
    pub last_issued: u32,
}

/// Whether some checkpoint has this id.
pub open spec fn has_id(cps: Seq<Checkpoint>, id: Seq<char>) -> bool {
    exists|i: int| 0 <= i < cps.len() && #[trigger] cps[i].id@ == id
}

/// Whether index `i` is the first checkpoint with this id.
pub open spec fn first_with_id(cps: Seq<Checkpoint>, id: Seq<char>, i: int) -> bool {
    &&& 0 <= i < cps.len()
    &&& cps[i].id@ == id
    &&& forall|j: int| 0 <= j < i ==> #[trigger] cps[j].id@ != id
}

/// The value of a string of decimal digits.
pub open spec fn digits_value(d: Seq<char>) -> int
    decreases d.len(),
{
    if d.len() == 0 {
        0
    } else {
        digits_value(d.drop_last()) * 10 + (d.last() as int - '0' as int)
    }
}

/// A non-empty run of ASCII decimal digits.
pub open spec fn all_digits(d: Seq<char>) -> bool {
    d.len() > 0 && forall|i: int| 0 <= i < d.len() ==> '0' <= #[trigger] d[i] <= '9'
}

/// `u32` parsing of decimal text: an optional `+`, then digits, with a value
/// that fits in 32 bits.
pub open spec fn spec_parse_u32(s: Seq<char>) -> Option<u32> {
    let d = if s.len() > 0 && s[0] == '+' { s.skip(1) } else { s };
    if all_digits(d) && digits_value(d) <= u32::MAX {
        Some(digits_value(d) as u32)
    } else {
        None
    }
}

/// The number in a checkpoint id `cp_<n>`, if it has that form.
pub open spec fn id_number(id: Seq<char>) -> Option<u32> {
    if starts_with(id, "cp_"@) {
        spec_parse_u32(id.skip(3))
    } else {
        None
    }
}

/// The largest id number among checkpoints, 0 when there is none.
pub open spec fn max_id_number(cps: Seq<Checkpoint>) -> int
    decreases cps.len(),
{
    if cps.len() == 0 {
        0
    } else {
        let rest = max_id_number(cps.drop_last());
        match id_number(cps.last().id@) {
            Some(n) => if n > rest { n as int } else { rest },
            None => rest,
        }
    }
}

/// Decimal digits padded with zeros on the left to at least four.
pub open spec fn pad4(d: Seq<char>) -> Seq<char> {
    if d.len() < 4 {
        Seq::new((4 - d.len()) as nat, |i: int| '0') + d
    } else {
        d
    }
}

/// The id `cp_` followed by the number in at least four digits.
pub open spec fn checkpoint_id_for(n: nat) -> Seq<char> {
    "cp_"@ + pad4(decimal(n))
}

/// Parses decimal text as Rust's `u32` parsing does.
pub fn parse_u32(s: &[char]) -> (r: Option<u32>)
    ensures
        r == spec_parse_u32(s@),
{
    let mut start: usize = 0;
    if s.len() > 0 && s[0] == '+' {
        start = 1;
    }
    let ghost d = if s@.len() > 0 && s@[0] == '+' { s@.skip(1) } else { s@ };
    assert(d =~= s@.skip(start as int));
    if start == s.len() {
        return None;
    }
    let mut v: u64 = 0;
    let mut k: usize = start;
    while k < s.len()
        invariant
            start <= k <= s@.len(),
            start < s@.len(),
            d =~= s@.skip(start as int),
            d == (if s@.len() > 0 && s@[0] == '+' { s@.skip(1) } else { s@ }),
            v == digits_value(s@.subrange(start as int, k as int)),
            v <= u32::MAX,
            forall|j: int| start <= j < k ==> '0' <= #[trigger] s@[j] <= '9',
        decreases s@.len() - k,
    {
        let c = s[k];
        if !('0' <= c && c <= '9') {
            assert(d[k - start] == c);
            return None;
        }
        assert(s@.subrange(start as int, k + 1).drop_last() =~= s@.subrange(start as int, k as int));
        let digit = (c as u32 - '0' as u32) as u64;
        let nv = v * 10 + digit;
        if nv > 4294967295u64 {
            proof {
                if all_digits(d) {
                    lemma_digits_value_prefix_bound(d, (k + 1 - start) as int);
                    assert(s@.subrange(start as int, k + 1) =~= d.take(k + 1 - start));
                }
            }
            return None;
        }
        v = nv;
        k = k + 1;
    }
    assert(s@.subrange(start as int, s@.len() as int) =~= d);
    Some(v as u32)
}

/// A digit string is worth at least as much as any of its prefixes.
pub proof fn lemma_digits_value_prefix_bound(d: Seq<char>, i: int)
    requires
        0 <= i <= d.len(),
        forall|j: int| 0 <= j < d.len() ==> '0' <= #[trigger] d[j] <= '9',
    ensures
        digits_value(d.take(i)) <= digits_value(d),
        0 <= digits_value(d.take(i)),
    decreases d.len(),
{
    if i == d.len() {
        assert(d.take(i) =~= d);
        lemma_digits_value_nonneg(d);
    } else {
        lemma_digits_value_prefix_bound(d.drop_last(), i);
        assert(d.drop_last().take(i) =~= d.take(i));
        lemma_digits_value_nonneg(d.drop_last());
    }
}

pub proof fn lemma_digits_value_nonneg(d: Seq<char>)
    requires
        forall|j: int| 0 <= j < d.len() ==> '0' <= #[trigger] d[j] <= '9',
    ensures
        0 <= digits_value(d),
    decreases d.len(),
{
    if d.len() > 0 {
        lemma_digits_value_nonneg(d.drop_last());
    }
}

/// The checkpoint id for a number: `cp_` and the number in at least four
/// digits, zero-padded.
pub fn format_checkpoint_id(n: u64) -> (id: String)
    ensures
        id@ == checkpoint_id_for(n as nat),
{
    let mut digits: Vec<char> = Vec::new();
    push_decimal(&mut digits, n);
    assert(digits@ =~= decimal(n as nat));
    let mut id = String::from_str("cp_");
    proof {
        reveal_strlit("cp_");
    }
    let mut pad: usize = 0;
    let need = if digits.len() < 4 { 4 - digits.len() } else { 0 };
    while pad < need
        invariant
            pad <= need,
            id@ == "cp_"@ + Seq::new(pad as nat, |i: int| '0'),
        decreases need - pad,
    {
        push_char(&mut id, '0');
        assert(Seq::new((pad + 1) as nat, |i: int| '0') =~= Seq::new(pad as nat, |i: int| '0').push('0'));
        pad = pad + 1;
    }
    let ghost prefix = id@;
    let mut k: usize = 0;
    while k < digits.len()
        invariant
            k <= digits@.len(),
            id@ == prefix + digits@.take(k as int),
        decreases digits@.len() - k,
    {
        push_char(&mut id, digits[k]);
        assert(digits@.take(k + 1) =~= digits@.take(k as int).push(digits@[k as int]));
        k = k + 1;
    }
    assert(digits@.take(digits@.len() as int) =~= digits@);
    assert(id@ =~= checkpoint_id_for(n as nat));
    id
}

/// Why a checkpoint record is rejected.
#[derive(Debug)]
pub enum CheckpointError {
    EmptyId,
    IdHasSeparator(String),
    IdHasDotDot(String),
    EmptyTreeRoot,
    InvalidTreeRoot,
    InvalidParentCommit,
    NegativeTimestamp,
    TimestampTooFarInFuture,
    CurrentNotFound(String),
    /// No checkpoint has this id.
    NotFound(String),
}

/// The verdict on a checkpoint id, checked in this order: empty, path
/// separator, `..`.
pub open spec fn spec_id_check(id: Seq<char>) -> Option<CheckpointError> {
    if id.len() == 0 {
        Some(CheckpointError::EmptyId)
    } else if crate::objects::has_separator(id) {
        Some(CheckpointError::IdHasSeparator(arbitrary()))
    } else if crate::refs::has_dot_dot(id) {
        Some(CheckpointError::IdHasDotDot(arbitrary()))
    } else {
        None
    }
}

/// Checks a checkpoint id, which names a file: not empty, no path
/// separators, no `..`.
pub fn validate_id(id: &str) -> (r: Result<(), CheckpointError>)
    ensures
        r is Ok <==> spec_id_check(id@) is None,
        id@.len() == 0 ==> (r matches Err(CheckpointError::EmptyId)),
        id@.len() > 0 && crate::objects::has_separator(id@) ==> (r matches Err(CheckpointError::IdHasSeparator(s)) && s@ == id@),
        id@.len() > 0 && !crate::objects::has_separator(id@) && crate::refs::has_dot_dot(id@) ==> (r matches Err(
            CheckpointError::IdHasDotDot(s),
        ) && s@ == id@),
{
    match crate::refs::validate_branch_name(id) {
        Err(crate::refs::RefError::EmptyBranchName) => Err(CheckpointError::EmptyId),
        Err(crate::refs::RefError::BranchNameHasSeparator) => Err(CheckpointError::IdHasSeparator(id.to_owned())),
        Err(crate::refs::RefError::BranchNameHasDotDot) => Err(CheckpointError::IdHasDotDot(id.to_owned())),
        _ => Ok(()),
    }
}

/// Seconds in a year: how far in the future a timestamp may lie.
pub const MAX_FUTURE_SECS: i64 = 31536000;

/// The checkpoint invariants, at time `now` (Unix seconds).
pub open spec fn spec_checkpoint_valid(cp: Checkpoint, now: i64) -> bool {
    &&& spec_id_check(cp.id@) is None
    &&& spec_is_valid_hash(cp.tree_root@)
    &&& (cp.parent_commit matches Some(p) ==> spec_is_valid_hash(p@))
    &&& cp.timestamp >= 0
    &&& cp.timestamp <= now + MAX_FUTURE_SECS
}

/// The error that the first failed check of a record gives, in the order
/// the checks run: id, tree root (empty, then malformed), parent, timestamp.
pub open spec fn is_checkpoint_error(cp: Checkpoint, now: i64, e: CheckpointError) -> bool {
    if cp.id@.len() == 0 {
        e is EmptyId
    } else if crate::objects::has_separator(cp.id@) {
        e matches CheckpointError::IdHasSeparator(s) && s@ == cp.id@
    } else if crate::refs::has_dot_dot(cp.id@) {
        e matches CheckpointError::IdHasDotDot(s) && s@ == cp.id@
    } else if cp.tree_root@.len() == 0 {
        e is EmptyTreeRoot
    } else if !spec_is_valid_hash(cp.tree_root@) {
        e is InvalidTreeRoot
    } else if cp.parent_commit matches Some(p) && !spec_is_valid_hash(p@) {
        e is InvalidParentCommit
    } else if cp.timestamp < 0 {
        e is NegativeTimestamp
    } else {
        e is TimestampTooFarInFuture
    }
}

/// Checks a checkpoint record at time `now` (Unix seconds): valid id, tree
/// root and parent hashes, timestamp not negative and at most a year ahead.
pub fn validate_checkpoint(cp: &Checkpoint, now: i64) -> (r: Result<(), CheckpointError>)
    requires
        now <= i64::MAX - MAX_FUTURE_SECS,
    ensures
        r is Ok <==> spec_checkpoint_valid(*cp, now),
        r matches Err(e) ==> is_checkpoint_error(*cp, now, e),
{
    match validate_id(cp.id.as_str()) {
        Ok(()) => {},
        Err(e) => {
            return Err(e);
        },
    }
    if cp.tree_root.as_str().is_empty() {
        return Err(CheckpointError::EmptyTreeRoot);
    }
    if !is_valid_hash(cp.tree_root.as_str()) {
        return Err(CheckpointError::InvalidTreeRoot);
    }
    match &cp.parent_commit {
        Some(p) => {
            if !is_valid_hash(p.as_str()) {
                return Err(CheckpointError::InvalidParentCommit);
            }
        },
        None => {},
    }
    if cp.timestamp < 0 {
        return Err(CheckpointError::NegativeTimestamp);
    }
    if cp.timestamp > now + MAX_FUTURE_SECS {
        return Err(CheckpointError::TimestampTooFarInFuture);
    }
    Ok(())
}

impl CheckpointIndex {
    pub fn new() -> (idx: Self)
        ensures
            idx.current is None,
            idx.checkpoints@.len() == 0,
            idx.last_issued == 0,
    {
        CheckpointIndex { current: None, checkpoints: Vec::new(), last_issued: 0 }
    }

    /// The index invariants at time `now`: every record valid, and the
    /// current id, if any, names a record.
    pub open spec fn spec_valid(&self, now: i64) -> bool {
        &&& forall|i: int| 0 <= i < self.checkpoints@.len() ==> spec_checkpoint_valid(#[trigger] self.checkpoints@[i], now)
        &&& (self.current matches Some(c) ==> has_id(self.checkpoints@, c@))
    }

    /// Checks the index invariants at time `now`: the records in order, then
    /// the current id. The error is that of the first invalid record, or
    /// `CurrentNotFound` when only the current id is wrong.
    pub fn validate(&self, now: i64) -> (r: Result<(), CheckpointError>)
        requires
            now <= i64::MAX - MAX_FUTURE_SECS,
        ensures
            r is Ok <==> self.spec_valid(now),
            r matches Err(e) ==> {
                ||| exists|i: int|
                    0 <= i < self.checkpoints@.len() && !spec_checkpoint_valid(#[trigger] self.checkpoints@[i], now)
                        && (forall|j: int| 0 <= j < i ==> spec_checkpoint_valid(#[trigger] self.checkpoints@[j], now))
                        && is_checkpoint_error(self.checkpoints@[i], now, e)
                ||| (forall|j: int| 0 <= j < self.checkpoints@.len() ==> spec_checkpoint_valid(#[trigger] self.checkpoints@[j], now))
                    && (self.current matches Some(c) && !has_id(self.checkpoints@, c@) && (e matches CheckpointError::CurrentNotFound(s) && s@ == c@))
            },
    {
        let mut i: usize = 0;
        while i < self.checkpoints.len()
            invariant
                now <= i64::MAX - MAX_FUTURE_SECS,
                i <= self.checkpoints@.len(),
                forall|j: int| 0 <= j < i ==> spec_checkpoint_valid(#[trigger] self.checkpoints@[j], now),
            decreases self.checkpoints@.len() - i,
        {
            match validate_checkpoint(&self.checkpoints[i], now) {
                Ok(()) => {},
                Err(e) => {
                    return Err(e);
                },
            }
            i = i + 1;
        }
        match &self.current {
            Some(c) => {
                if self.find(c.as_str()).is_none() {
                    return Err(CheckpointError::CurrentNotFound(c.clone()));
                }
            },
            None => {},
        }
        Ok(())
    }

    /// Records a new checkpoint and makes it current. Ids must be unique.
    pub fn add(&mut self, checkpoint: Checkpoint)
        requires
            !has_id(old(self).checkpoints@, checkpoint.id@),
        ensures
            final(self).checkpoints@ == old(self).checkpoints@.push(checkpoint),
            final(self).current matches Some(c) && c@ == checkpoint.id@,
            final(self).last_issued == match id_number(checkpoint.id@) {
                Some(n) => if n > old(self).last_issued { n } else { old(self).last_issued },
                None => old(self).last_issued,
            },
            forall|now: i64|
                old(self).spec_valid(now) && spec_checkpoint_valid(checkpoint, now) ==> #[trigger] final(self).spec_valid(
                    now,
                ),
    {
        match id_number_of(checkpoint.id.as_str()) {
            Some(n) => {
                if n > self.last_issued {
                    self.last_issued = n;
                }
            },
            None => {},
        }
        self.current = Some(checkpoint.id.clone());
        self.checkpoints.push(checkpoint);
        assert(self.checkpoints@[self.checkpoints@.len() - 1].id@ == checkpoint.id@);
    }

    /// The position of the first checkpoint with this id.
    fn position(&self, id: &str) -> (r: Option<usize>)
        ensures
            r matches Some(i) ==> first_with_id(self.checkpoints@, id@, i as int),
            r is None ==> !has_id(self.checkpoints@, id@),
    {
        let mut i: usize = 0;
        while i < self.checkpoints.len()
            invariant
                i <= self.checkpoints@.len(),
                forall|j: int| 0 <= j < i ==> #[trigger] self.checkpoints@[j].id@ != id@,
            decreases self.checkpoints@.len() - i,
        {
            if str_eq(self.checkpoints[i].id.as_str(), id) {
                return Some(i);
            }
            i = i + 1;
        }
        None
    }

    /// The first checkpoint with this id.
    pub fn find(&self, id: &str) -> (r: Option<&Checkpoint>)
        ensures
            r is None <==> !has_id(self.checkpoints@, id@),
            r matches Some(cp) ==> exists|i: int| first_with_id(self.checkpoints@, id@, i) && *cp == self.checkpoints@[i],
    {
        match self.position(id) {
            Some(i) => Some(&self.checkpoints[i]),
            None => None,
        }
    }

    /// Deletes the first checkpoint with this id; returns whether there was
    /// one. If it was current, the last remaining checkpoint (if any) becomes
    /// current.
    pub fn remove(&mut self, id: &str) -> (found: bool)
        ensures
            found == has_id(old(self).checkpoints@, id@),
            !found ==> final(self).checkpoints@ == old(self).checkpoints@ && final(self).current == old(self).current,
            found ==> exists|i: int|
                first_with_id(old(self).checkpoints@, id@, i) && final(self).checkpoints@ == old(self).checkpoints@.remove(i),
            found && (old(self).current matches Some(c) && c@ == id@) ==> (if final(self).checkpoints@.len() == 0 {
                final(self).current is None
            } else {
                final(self).current matches Some(c) && c@ == final(self).checkpoints@.last().id@
            }),
            found && !(old(self).current matches Some(c) && c@ == id@) ==> final(self).current == old(self).current,
            forall|now: i64| old(self).spec_valid(now) ==> #[trigger] final(self).spec_valid(now),
            final(self).last_issued == old(self).last_issued,
    {
        match self.position(id) {
            Some(pos) => {
                self.checkpoints.remove(pos);
                let is_current = match &self.current {
                    Some(c) => str_eq(c.as_str(), id),
                    None => false,
                };
                if is_current {
                    let n = self.checkpoints.len();
                    self.current = if n == 0 { None } else { Some(self.checkpoints[n - 1].id.clone()) };
                    proof {
                        if n > 0 {
                            assert(self.checkpoints@[n - 1].id@ == self.current->Some_0@);
                        }
                    }
                }
                proof {
                    assert forall|now: i64| old(self).spec_valid(now) implies #[trigger] self.spec_valid(now) by {
                        lemma_removed_keeps_valid(
                            old(self).checkpoints@,
                            self.checkpoints@,
                            pos as int,
                            id@,
                            old(self).current,
                            self.current,
                            now,
                        );
                    }
                }
                true
            },
            None => false,
        }
    }

    /// The tree of the current checkpoint, if there is a current one.
    pub fn current_tree(&self) -> (r: Option<String>)
        ensures
            r is Some <==> (self.current matches Some(c) && has_id(self.checkpoints@, c@)),
            r matches Some(t) ==> exists|i: int|
                first_with_id(self.checkpoints@, self.current->Some_0@, i) && t == self.checkpoints@[i].tree_root,
    {
        match &self.current {
            Some(c) => match self.find(c.as_str()) {
                Some(cp) => Some(cp.tree_root.clone()),
                None => None,
            },
            None => None,
        }
    }

    /// The largest `cp_<n>` number in use (0 when there is none).
    fn max_number(&self) -> (max: u32)
        ensures
            max == max_id_number(self.checkpoints@),
    {
        let mut max: u32 = 0;
        let mut i: usize = 0;
        while i < self.checkpoints.len()
            invariant
                i <= self.checkpoints@.len(),
                max == max_id_number(self.checkpoints@.take(i as int)),
            decreases self.checkpoints@.len() - i,
        {
            proof {
                assert(self.checkpoints@.take(i + 1).drop_last() =~= self.checkpoints@.take(i as int));
            }
            match id_number_of(self.checkpoints[i].id.as_str()) {
                Some(n) => {
                    if n > max {
                        max = n;
                    }
                },
                None => {},
            }
            i = i + 1;
        }
        assert(self.checkpoints@.take(self.checkpoints@.len() as int) =~= self.checkpoints@);
        max
    }

    /// The largest number recorded or in use: the counter or, if larger,
    /// the largest `cp_<n>` number among the checkpoints.
    pub open spec fn issued_bound(&self) -> int {
        let m = max_id_number(self.checkpoints@);
        if self.last_issued >= m {
            self.last_issued as int
        } else {
            m
        }
    }

    /// The next id: one past the largest number ever recorded, so it is
    /// never an id that was handed out or added before, even after deletions.
    pub fn next_id(&self) -> (id: String)
        requires
            self.issued_bound() < u32::MAX,
        ensures
            id@ == checkpoint_id_for((self.issued_bound() + 1) as nat),
            id_number(id@) == Some((self.issued_bound() + 1) as u32),
    {
        let max = self.max_number();
        let bound = if self.last_issued >= max { self.last_issued } else { max };
        proof {
            lemma_id_number_of_id((bound + 1) as nat);
        }
        format_checkpoint_id((bound + 1) as u64)
    }

    /// The next id, or `None` when the largest number recorded is already
    /// `u32::MAX` and no larger one can be counted.
    pub fn try_next_id(&self) -> (r: Option<String>)
        ensures
            r is None <==> self.issued_bound() == u32::MAX,
            r matches Some(id) ==> id@ == checkpoint_id_for((self.issued_bound() + 1) as nat),
            r matches Some(id) ==> id_number(id@) == Some((self.issued_bound() + 1) as u32),
    {
        let max = self.max_number();
        let bound = if self.last_issued >= max { self.last_issued } else { max };
        if bound == u32::MAX {
            None
        } else {
            proof {
                lemma_id_number_of_id((bound + 1) as nat);
            }
            Some(format_checkpoint_id((bound + 1) as u64))
        }
    }

    /// Deletes every checkpoint; the counter stays, so ids are not reused.
    pub fn clear(&mut self)
        ensures
            final(self).checkpoints@.len() == 0,
            final(self).current is None,
            final(self).last_issued == old(self).last_issued,
    {
        self.checkpoints = Vec::new();
        self.current = None;
    }
}

/// The number in a checkpoint id `cp_<n>`, if it has that form.
pub fn id_number_of(id: &str) -> (r: Option<u32>)
    ensures
        r == id_number(id@),
{
    let cs = chars_of(id);
    proof {
        reveal_strlit("cp_");
    }
    if cs.len() >= 3 && cs[0] == 'c' && cs[1] == 'p' && cs[2] == '_' {
        assert(cs@.take(3) =~= "cp_"@);
        let rest = vstd::slice::slice_subrange(cs.as_slice(), 3, cs.len());
        assert(rest@ =~= cs@.skip(3));
        parse_u32(rest)
    } else {
        assert(!starts_with(cs@, "cp_"@)) by {
            if cs@.len() >= 3 {
                assert(cs@.take(3)[0] == cs@[0]);
                assert(cs@.take(3)[1] == cs@[1]);
                assert(cs@.take(3)[2] == cs@[2]);
            }
        }
        None
    }
}

/// Removing the record at `pos` keeps an index valid at time `now`, when
/// the current id either stays (it was another record's) or moves to a
/// remaining record.
proof fn lemma_removed_keeps_valid(
    before: Seq<Checkpoint>,
    after: Seq<Checkpoint>,
    pos: int,
    id: Seq<char>,
    current_before: Option<String>,
    current_after: Option<String>,
    now: i64,
)
    requires
        0 <= pos < before.len(),
        before[pos].id@ == id,
        after == before.remove(pos),
        (current_before matches Some(c) && c@ == id) ==> (current_after matches Some(c2) ==> has_id(after, c2@)),
        !(current_before matches Some(c) && c@ == id) ==> current_after == current_before,
        forall|i: int| 0 <= i < before.len() ==> spec_checkpoint_valid(#[trigger] before[i], now),
        current_before matches Some(c) ==> has_id(before, c@),
    ensures
        forall|i: int| 0 <= i < after.len() ==> spec_checkpoint_valid(#[trigger] after[i], now),
        current_after matches Some(c) ==> has_id(after, c@),
{
    assert forall|i: int| 0 <= i < after.len() implies spec_checkpoint_valid(#[trigger] after[i], now) by {
        if i < pos {
            assert(after[i] == before[i]);
        } else {
            assert(after[i] == before[i + 1]);
        }
    }
    if !(current_before matches Some(c) && c@ == id) {
        match current_before {
            Some(c) => {
                let j = choose|j: int| 0 <= j < before.len() && #[trigger] before[j].id@ == c@;
                assert(j != pos);
                if j < pos {
                    assert(after[j] == before[j]);
                } else {
                    assert(after[j - 1] == before[j]);
                }
            },
            None => {},
        }
    }
}

/// Where the checkpoints of one repository are kept: the index file and one
/// file per checkpoint below `checkpoints/entries`.
pub struct CheckpointStore {
    checkpoints_dir: String,
    index_path: String,
}

impl CheckpointStore {
    /// The checkpoints directory.
    pub closed spec fn dir(&self) -> Seq<char> {
        self.checkpoints_dir@
    }

    /// The index file.
    pub closed spec fn index(&self) -> Seq<char> {
        self.index_path@
    }

    pub fn new(repo_root: &str) -> (r: Self)
        ensures
            r.dir() == join_path(repo_root@, "checkpoints"@),
            r.index() == join_path(r.dir(), "index"@),
    {
        let checkpoints_dir = join(repo_root, "checkpoints");
        let index_path = join(checkpoints_dir.as_str(), "index");
        CheckpointStore { checkpoints_dir, index_path }
    }

    /// The index file.
    pub fn index_path(&self) -> (p: String)
        ensures
            p@ == self.index(),
    {
        self.index_path.clone()
    }

    /// The checkpoints directory.
    pub fn checkpoints_dir(&self) -> (p: String)
        ensures
            p@ == self.dir(),
    {
        self.checkpoints_dir.clone()
    }

    /// The file of one checkpoint, for a valid id only, so that it stays
    /// inside the entries directory.
    pub fn checkpoint_entry_path(&self, id: &str) -> (r: Result<String, CheckpointError>)
        ensures
            r is Ok <==> spec_id_check(id@) is None,
            r matches Ok(p) ==> p@ == join_path(join_path(self.dir(), "entries"@), id@),
    {
        match validate_id(id) {
            Ok(()) => {},
            Err(e) => {
                return Err(e);
            },
        }
        let entries = join(self.checkpoints_dir.as_str(), "entries");
        Ok(join(entries.as_str(), id))
    }
}

/// Checking out a checkpoint, once the index is loaded: the checkpoint must
/// exist; it becomes current. Returns it, so that its tree can be restored.
pub fn checkout_checkpoint(index: &mut CheckpointIndex, checkpoint_id: &str) -> (r: Result<Checkpoint, CheckpointError>)
    ensures
        r is Ok <==> has_id(old(index).checkpoints@, checkpoint_id@),
        r matches Ok(cp) ==> exists|i: int|
            first_with_id(old(index).checkpoints@, checkpoint_id@, i) && cp.id@ == old(index).checkpoints@[i].id@
                && cp.tree_root@ == old(index).checkpoints@[i].tree_root@,
        r matches Ok(_) ==> final(index).checkpoints == old(index).checkpoints && (final(index).current matches Some(c)
            && c@ == checkpoint_id@),
        r matches Err(e) ==> *final(index) == *old(index) && (e matches CheckpointError::NotFound(s) && s@ == checkpoint_id@),
        forall|now: i64| old(index).spec_valid(now) ==> #[trigger] final(index).spec_valid(now),
        final(index).last_issued == old(index).last_issued,
{
    let found = match index.find(checkpoint_id) {
        Some(cp) => Checkpoint {
            id: cp.id.clone(),
            tree_root: cp.tree_root.clone(),
            parent_commit: cp.parent_commit.clone(),
            timestamp: cp.timestamp,
            message: cp.message.clone(),
        },
        None => {
            return Err(CheckpointError::NotFound(checkpoint_id.to_string()));
        },
    };
    index.current = Some(checkpoint_id.to_string());
    Ok(found)
}

/// Dropping a checkpoint, once the index is loaded: it must exist, and is
/// removed as `CheckpointIndex::remove` does.
pub fn drop_checkpoint(index: &mut CheckpointIndex, checkpoint_id: &str) -> (r: Result<(), CheckpointError>)
    ensures
        r is Ok <==> has_id(old(index).checkpoints@, checkpoint_id@),
        r is Ok ==> exists|i: int|
            first_with_id(old(index).checkpoints@, checkpoint_id@, i) && final(index).checkpoints@ == old(
                index,
            ).checkpoints@.remove(i),
        r matches Err(e) ==> final(index).checkpoints@ == old(index).checkpoints@ && final(index).current == old(
            index,
        ).current && (e matches CheckpointError::NotFound(s) && s@ == checkpoint_id@),
        r is Ok && (old(index).current matches Some(c) && c@ == checkpoint_id@) ==> (if final(index).checkpoints@.len()
            == 0 {
            final(index).current is None
        } else {
            final(index).current matches Some(c) && c@ == final(index).checkpoints@.last().id@
        }),
        r is Ok && !(old(index).current matches Some(c) && c@ == checkpoint_id@) ==> final(index).current == old(
            index,
        ).current,
        forall|now: i64| old(index).spec_valid(now) ==> #[trigger] final(index).spec_valid(now),
        final(index).last_issued == old(index).last_issued,
{
    if index.remove(checkpoint_id) {
        Ok(())
    } else {
        Err(CheckpointError::NotFound(checkpoint_id.to_string()))
    }
}

/// The tree of the current checkpoint of a loaded index, if any.
pub fn get_current_tree(index: &CheckpointIndex) -> (r: Option<String>)
    ensures
        r is Some <==> (index.current matches Some(c) && has_id(index.checkpoints@, c@)),
        r matches Some(t) ==> exists|i: int|
            first_with_id(index.checkpoints@, index.current->Some_0@, i) && t == index.checkpoints@[i].tree_root,
{
    index.current_tree()
}

/// The decimal digits of a number are digits and spell it.
proof fn lemma_decimal_value(n: nat)
    ensures
        all_digits(decimal(n)),
        digits_value(decimal(n)) == n,
    decreases n,
{
    let d = decimal(n);
    if n >= 10 {
        lemma_decimal_value(n / 10);
        assert(d.drop_last() =~= decimal(n / 10));
        assert forall|i: int| 0 <= i < d.len() implies '0' <= #[trigger] d[i] <= '9' by {
            if i < d.len() - 1 {
                assert(d[i] == decimal(n / 10)[i]);
            }
        }
        assert(d.last() as int == 48 + n % 10);
        assert((n / 10) * 10 + n % 10 == n) by (nonlinear_arith);
        assert(digits_value(d) == digits_value(d.drop_last()) * 10 + (d.last() as int - '0' as int));
        assert(digits_value(d.drop_last()) == n / 10);
    } else {
        assert(d.drop_last() =~= Seq::<char>::empty());
        assert(d.last() as int == 48 + n);
        assert(digits_value(d) == digits_value(d.drop_last()) * 10 + (d.last() as int - '0' as int));
        assert(digits_value(d.drop_last()) == 0);
    }
}

/// The largest id number is never negative.
proof fn lemma_max_id_nonneg(cps: Seq<Checkpoint>)
    ensures
        max_id_number(cps) >= 0,
    decreases cps.len(),
{
    if cps.len() > 0 {
        lemma_max_id_nonneg(cps.drop_last());
    }
}

/// Zeros in front of a digit string do not change its value.
proof fn lemma_leading_zeros(k: nat, d: Seq<char>)
    ensures
        digits_value(Seq::new(k, |i: int| '0') + d) == digits_value(d),
    decreases d.len(), k,
{
    let z = Seq::new(k, |i: int| '0');
    if d.len() == 0 {
        assert(z + d =~= z);
        if k > 0 {
            assert(z.drop_last() =~= Seq::new((k - 1) as nat, |i: int| '0'));
            lemma_leading_zeros((k - 1) as nat, d);
            assert(Seq::new((k - 1) as nat, |i: int| '0') + d =~= Seq::new((k - 1) as nat, |i: int| '0'));
        }
    } else {
        assert((z + d).drop_last() =~= z + d.drop_last());
        lemma_leading_zeros(k, d.drop_last());
    }
}

/// A checkpoint id made for a number reads back as that number.
pub proof fn lemma_id_number_of_id(n: nat)
    requires
        n <= u32::MAX,
    ensures
        id_number(checkpoint_id_for(n)) == Some(n as u32),
{
    reveal_strlit("cp_");
    let d = decimal(n);
    lemma_decimal_value(n);
    let p = pad4(d);
    let id = checkpoint_id_for(n);
    assert(id.take(3) =~= "cp_"@);
    assert(id.skip(3) =~= p);
    if d.len() < 4 {
        lemma_leading_zeros((4 - d.len()) as nat, d);
        let z = Seq::new((4 - d.len()) as nat, |i: int| '0');
        assert forall|i: int| 0 <= i < p.len() implies '0' <= #[trigger] p[i] <= '9' by {
            if i >= z.len() {
                assert(p[i] == d[i - z.len()]);
            }
        }
    }
    assert(all_digits(p));
    assert(p[0] != '+');
}

/// No checkpoint's id number exceeds the largest one.
proof fn lemma_max_id_bounds(cps: Seq<Checkpoint>, i: int)
    requires
        0 <= i < cps.len(),
    ensures
        id_number(cps[i].id@) matches Some(m) ==> m <= max_id_number(cps),
    decreases cps.len(),
{
    if i < cps.len() - 1 {
        lemma_max_id_bounds(cps.drop_last(), i);
        assert(cps.drop_last()[i] == cps[i]);
    }
}

/// Fresh ids: the id `next_id` gives is not the id of any checkpoint in the
/// index, nor any `cp_<n>` id whose number the counter has recorded, so no id
/// added before is handed out again, whatever was deleted since (`add`
/// raises the counter to the added id's number; nothing lowers it).
pub proof fn lemma_next_id_fresh(idx: CheckpointIndex)
    requires
        idx.issued_bound() < u32::MAX,
    ensures
        !has_id(idx.checkpoints@, checkpoint_id_for((idx.issued_bound() + 1) as nat)),
        forall|id: Seq<char>|
            (#[trigger] id_number(id) matches Some(n) && n <= idx.last_issued) ==> id != checkpoint_id_for(
                (idx.issued_bound() + 1) as nat,
            ),
{
    let cps = idx.checkpoints@;
    lemma_max_id_nonneg(cps);
    let n = (idx.issued_bound() + 1) as nat;
    lemma_id_number_of_id(n);
    if has_id(cps, checkpoint_id_for(n)) {
        let i = choose|i: int| 0 <= i < cps.len() && #[trigger] cps[i].id@ == checkpoint_id_for(n);
        lemma_max_id_bounds(cps, i);
    }
}

} // verus!
