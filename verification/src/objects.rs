//! The object model: blobs (chunk lists), trees (sorted directory listings),
//! commits, and the invariants that each must satisfy before it is stored.

use vstd::prelude::*;
use vstd::string::*;
use vstd::multiset::*;
use crate::text::{append_decimal, decimal};
use crate::order::{lemma_lex_le_reflexive, lemma_lex_le_total, lemma_lex_le_transitive, str_le, str_le_exec};

verus! {

broadcast use vstd::seq_lib::group_to_multiset_ensures, vstd::multiset::group_multiset_axioms;

/// One chunk of a blob: the hash of its bytes, their length, and where they sit
/// in the file.
#[derive(Debug)]
pub struct ChunkEntry {
    pub hash: String,
    pub size: u64,
    pub offset: u64,
}

/// File content, as the ordered list of its chunks.
#[derive(Debug)]
pub struct Blob {
    pub chunks: Vec<ChunkEntry>,
    pub total_size: u64,
}

/// Sum of the sizes of a list of chunks.
pub open spec fn sum_sizes(chunks: Seq<ChunkEntry>) -> int
    decreases chunks.len(),
{
    if chunks.len() == 0 {
        0
    } else {
        sum_sizes(chunks.drop_last()) + chunks.last().size
    }
}

pub proof fn lemma_sum_sizes_prefix_le(chunks: Seq<ChunkEntry>, i: int)
    requires
        0 <= i <= chunks.len(),
    ensures
        0 <= sum_sizes(chunks.take(i)) <= sum_sizes(chunks),
    decreases chunks.len(),
{
    if chunks.len() > 0 {
        if i == chunks.len() {
            assert(chunks.take(i) =~= chunks);
            lemma_sum_sizes_prefix_le(chunks.drop_last(), i - 1);
            assert(chunks.drop_last().take(i - 1) =~= chunks.drop_last());
        } else {
            lemma_sum_sizes_prefix_le(chunks.drop_last(), i);
            assert(chunks.drop_last().take(i) =~= chunks.take(i));
        }
    }
}

pub proof fn lemma_sum_sizes_step(chunks: Seq<ChunkEntry>, i: int)
    requires
        0 <= i < chunks.len(),
    ensures
        sum_sizes(chunks.take(i + 1)) == sum_sizes(chunks.take(i)) + chunks[i].size,
{
    assert(chunks.take(i + 1).drop_last() =~= chunks.take(i));
}

/// Whether chunk `i` does not start after chunk `i - 1`.
pub open spec fn unsorted_at(chunks: Seq<ChunkEntry>, i: int) -> bool {
    chunks[i - 1].offset >= chunks[i].offset
}

/// Whether chunk `i` does not start where the chunks before it end.
pub open spec fn offset_gap(chunks: Seq<ChunkEntry>, i: int) -> bool {
    chunks[i].offset != sum_sizes(chunks.take(i))
}

/// Whether `m` is the error for the first fault of a blob: the total size,
/// else the first chunk out of order, else the first gap.
pub open spec fn is_blob_error(total_size: u64, chunks: Seq<ChunkEntry>, m: Seq<char>) -> bool {
    if sum_sizes(chunks) != total_size {
        m == size_fault_message(total_size, chunks)
    } else if exists|i: int| 1 <= i < chunks.len() && #[trigger] unsorted_at(chunks, i) {
        exists|i: int|
            1 <= i < chunks.len() && #[trigger] unsorted_at(chunks, i) && (forall|k: int|
                1 <= k < i ==> !unsorted_at(chunks, k)) && m == unsorted_message(chunks, i)
    } else {
        exists|i: int|
            0 <= i < chunks.len() && #[trigger] offset_gap(chunks, i) && (forall|k: int|
                0 <= k < i ==> !offset_gap(chunks, k)) && m == gap_message(chunks, i)
    }
}

/// The error for a total size that is not the sum of the chunk sizes.
pub open spec fn size_fault_message(total_size: u64, chunks: Seq<ChunkEntry>) -> Seq<char> {
    "Blob size mismatch: total_size="@ + decimal(total_size as nat) + ", computed="@ + decimal(
        sum_sizes(chunks) as nat,
    )
}

/// The error for chunks `i - 1` and `i` out of offset order.
pub open spec fn unsorted_message(chunks: Seq<ChunkEntry>, i: int) -> Seq<char> {
    "Chunks not sorted by offset: chunk "@ + decimal((i - 1) as nat) + " has offset "@ + decimal(
        chunks[i - 1].offset as nat,
    ) + ", chunk "@ + decimal(i as nat) + " has offset "@ + decimal(chunks[i].offset as nat)
}

/// The error for chunk `i` not starting where the chunks before it end.
pub open spec fn gap_message(chunks: Seq<ChunkEntry>, i: int) -> Seq<char> {
    "Chunk "@ + decimal(i as nat) + " offset mismatch: expected "@ + decimal(sum_sizes(chunks.take(i)) as nat)
        + ", got "@ + decimal(chunks[i].offset as nat)
}

/// When chunk `i` is out of order and none before it is, `i` is the only
/// first such chunk.
proof fn lemma_first_unsorted(chunks: Seq<ChunkEntry>, i: int)
    requires
        1 <= i < chunks.len(),
        unsorted_at(chunks, i),
        forall|k: int| 1 <= k < i ==> chunks[k - 1].offset < #[trigger] chunks[k].offset,
    ensures
        forall|i2: int|
            1 <= i2 < chunks.len() && #[trigger] unsorted_at(chunks, i2) && (forall|k: int|
                1 <= k < i2 ==> !unsorted_at(chunks, k)) ==> i2 == i,
{
    assert forall|i2: int|
        1 <= i2 < chunks.len() && #[trigger] unsorted_at(chunks, i2) && (forall|k: int|
            1 <= k < i2 ==> !unsorted_at(chunks, k)) implies i2 == i by {
        if i2 < i {
            assert(chunks[i2 - 1].offset < chunks[i2].offset);
        }
        if i2 > i {
            assert(!unsorted_at(chunks, i));
        }
    }
}

/// When chunk `i` leaves a gap and none before it does, `i` is the only
/// first such chunk.
proof fn lemma_first_gap(chunks: Seq<ChunkEntry>, i: int)
    requires
        0 <= i < chunks.len(),
        offset_gap(chunks, i),
        forall|k: int| 0 <= k < i ==> #[trigger] chunks[k].offset == sum_sizes(chunks.take(k)),
    ensures
        forall|i2: int|
            0 <= i2 < chunks.len() && #[trigger] offset_gap(chunks, i2) && (forall|k: int|
                0 <= k < i2 ==> !offset_gap(chunks, k)) ==> i2 == i,
{
    assert forall|i2: int|
        0 <= i2 < chunks.len() && #[trigger] offset_gap(chunks, i2) && (forall|k: int|
            0 <= k < i2 ==> !offset_gap(chunks, k)) implies i2 == i by {
        if i2 < i {
            assert(chunks[i2].offset == sum_sizes(chunks.take(i2)));
        }
        if i2 > i {
            assert(!offset_gap(chunks, i));
        }
    }
}

impl Blob {
    /// Chunk offsets strictly increase.
    pub open spec fn offsets_increasing(&self) -> bool {
        forall|i: int|
            1 <= i < self.chunks@.len() ==> self.chunks@[i - 1].offset < #[trigger] self.chunks@[i].offset
    }

    /// Each chunk starts where the chunks before it end, the first at 0.
    pub open spec fn offsets_contiguous(&self) -> bool {
        forall|i: int|
            0 <= i < self.chunks@.len() ==> #[trigger] self.chunks@[i].offset == sum_sizes(
                self.chunks@.take(i),
            )
    }

    /// The blob invariants: sizes add up to the total, chunks sorted by offset
    /// and laid end to end.
    pub open spec fn spec_valid(&self) -> bool {
        &&& sum_sizes(self.chunks@) == self.total_size
        &&& self.offsets_increasing()
        &&& self.offsets_contiguous()
    }

    /// Checks the blob invariants in order: the total size, then that
    /// offsets increase, then that chunks are laid end to end. The error
    /// names the first fault found.
    #[verifier::spinoff_prover]
    pub fn validate(&self) -> (r: Result<(), String>)
        requires
            sum_sizes(self.chunks@) <= u64::MAX,
        ensures
            r is Ok <==> self.spec_valid(),
            sum_sizes(self.chunks@) != self.total_size ==> (r matches Err(m) && m@ == size_fault_message(self.total_size, self.chunks@)),
            sum_sizes(self.chunks@) == self.total_size ==> forall|i: int|
                1 <= i < self.chunks@.len() && #[trigger] unsorted_at(self.chunks@, i) && (forall|k: int|
                    1 <= k < i ==> !unsorted_at(self.chunks@, k)) ==> (r matches Err(m) && m@ == unsorted_message(
                    self.chunks@,
                    i,
                )),
            sum_sizes(self.chunks@) == self.total_size && self.offsets_increasing() ==> forall|i: int|
                0 <= i < self.chunks@.len() && #[trigger] offset_gap(self.chunks@, i) && (forall|k: int|
                    0 <= k < i ==> !offset_gap(self.chunks@, k)) ==> (r matches Err(m) && m@ == gap_message(
                    self.chunks@,
                    i,
                )),
            r matches Err(m) ==> is_blob_error(self.total_size, self.chunks@, m@),
    {
        let n = self.chunks.len();
        let mut computed: u64 = 0;
        let mut i: usize = 0;
        while i < n
            invariant
                n == self.chunks@.len(),
                i <= n,
                sum_sizes(self.chunks@) <= u64::MAX,
                computed == sum_sizes(self.chunks@.take(i as int)),
            decreases n - i,
        {
            proof {
                lemma_sum_sizes_step(self.chunks@, i as int);
                lemma_sum_sizes_prefix_le(self.chunks@, i + 1);
            }
            computed = computed + self.chunks[i].size;
            i = i + 1;
        }
        assert(self.chunks@.take(n as int) =~= self.chunks@);
        if computed != self.total_size {
            let mut msg = String::from_str("Blob size mismatch: total_size=");
            proof {
                reveal_strlit("Blob size mismatch: total_size=");
                reveal_strlit(", computed=");
            }
            append_decimal(&mut msg, self.total_size);
            msg.append(", computed=");
            append_decimal(&mut msg, computed);
            assert(computed as nat == sum_sizes(self.chunks@) as nat);
            assert(msg@ =~= size_fault_message(self.total_size, self.chunks@));
            return Err(msg);
        }
        let mut i: usize = 1;
        while i < n
            invariant
                n == self.chunks@.len(),
                1 <= i,
                sum_sizes(self.chunks@) == self.total_size,
                forall|k: int|
                    1 <= k < i && k < n ==> self.chunks@[k - 1].offset < #[trigger] self.chunks@[k].offset,
            decreases n - i,
        {
            if self.chunks[i - 1].offset >= self.chunks[i].offset {
                let mut msg = String::from_str("Chunks not sorted by offset: chunk ");
                proof {
                    reveal_strlit("Chunks not sorted by offset: chunk ");
                    reveal_strlit(" has offset ");
                    reveal_strlit(", chunk ");
                }
                append_decimal(&mut msg, (i - 1) as u64);
                msg.append(" has offset ");
                append_decimal(&mut msg, self.chunks[i - 1].offset);
                msg.append(", chunk ");
                append_decimal(&mut msg, i as u64);
                msg.append(" has offset ");
                append_decimal(&mut msg, self.chunks[i].offset);
                proof {
                    assert(msg@ =~= unsorted_message(self.chunks@, i as int));
                    lemma_first_unsorted(self.chunks@, i as int);
                    assert(unsorted_at(self.chunks@, i as int));
                    assert forall|k: int| 1 <= k < i implies !unsorted_at(self.chunks@, k) by {
                        assert(self.chunks@[k - 1].offset < self.chunks@[k].offset);
                    }
                    assert(is_blob_error(self.total_size, self.chunks@, msg@));
                }
                return Err(msg);
            }
            i = i + 1;
        }
        let mut expected: u64 = 0;
        let mut i: usize = 0;
        while i < n
            invariant
                n == self.chunks@.len(),
                i <= n,
                sum_sizes(self.chunks@) == self.total_size,
                self.offsets_increasing(),
                expected == sum_sizes(self.chunks@.take(i as int)),
                forall|k: int|
                    0 <= k < i ==> #[trigger] self.chunks@[k].offset == sum_sizes(self.chunks@.take(k)),
            decreases n - i,
        {
            if self.chunks[i].offset != expected {
                let mut msg = String::from_str("Chunk ");
                proof {
                    reveal_strlit("Chunk ");
                    reveal_strlit(" offset mismatch: expected ");
                    reveal_strlit(", got ");
                }
                append_decimal(&mut msg, i as u64);
                msg.append(" offset mismatch: expected ");
                append_decimal(&mut msg, expected);
                msg.append(", got ");
                append_decimal(&mut msg, self.chunks[i].offset);
                proof {
                    assert(msg@ =~= gap_message(self.chunks@, i as int));
                    lemma_first_gap(self.chunks@, i as int);
                    assert(!(exists|i2: int| 1 <= i2 < self.chunks@.len() && #[trigger] unsorted_at(self.chunks@, i2)));
                    assert(offset_gap(self.chunks@, i as int));
                    assert forall|k: int| 0 <= k < i implies !offset_gap(self.chunks@, k) by {
                        assert(self.chunks@[k].offset == sum_sizes(self.chunks@.take(k)));
                    }
                    assert(is_blob_error(self.total_size, self.chunks@, msg@));
                }
                return Err(msg);
            }
            proof {
                lemma_sum_sizes_step(self.chunks@, i as int);
                lemma_sum_sizes_prefix_le(self.chunks@, i + 1);
            }
            expected = expected + self.chunks[i].size;
            i = i + 1;
        }
        Ok(())
    }
}

/// What a tree entry names: a file's blob or a subdirectory's tree.
#[derive(Debug)]
pub enum TreeEntry {
    Blob { hash: String, size: u64 },
    Tree { hash: String },
}

impl TreeEntry {
    /// The hash that the entry points to, whatever its kind.
    pub open spec fn spec_hash(&self) -> Seq<char> {
        match self {
            TreeEntry::Blob { hash, .. } => hash@,
            TreeEntry::Tree { hash } => hash@,
        }
    }
}

/// A directory listing: (name, entry) pairs.
#[derive(Debug)]
pub struct Tree {
    pub entries: Vec<(String, TreeEntry)>,
}

/// Whether a name holds a path separator, `/` or `\`.
pub open spec fn has_separator(name: Seq<char>) -> bool {
    name.contains('/') || name.contains('\\')
}

/// Checks a name for path separators.
pub fn contains_separator(name: &str) -> (r: bool)
    ensures
        r == has_separator(name@),
{
    let mut found = false;
    for c in it: name.chars()
        invariant
            it.seq() == name@,
            found == (exists|j: int| 0 <= j < it.index() && (name@[j] == '/' || name@[j] == '\\')),
    {
        if c == '/' || c == '\\' {
            found = true;
        }
    }
    found
}

/// Entries sorted by name in string order, each no later than the next.
pub open spec fn entries_sorted(entries: Seq<(String, TreeEntry)>) -> bool {
    forall|i: int| 1 <= i < entries.len() ==> str_le(entries[i - 1].0@, #[trigger] entries[i].0@)
}

/// Entries sorted by name, stated for every pair.
pub open spec fn entries_sorted_pairwise(entries: Seq<(String, TreeEntry)>) -> bool {
    forall|i: int, j: int|
        0 <= i < j < entries.len() ==> str_le(#[trigger] entries[i].0@, #[trigger] entries[j].0@)
}

/// No two entries share a name.
pub open spec fn names_unique(entries: Seq<(String, TreeEntry)>) -> bool {
    forall|i: int, j: int|
        0 <= i < j < entries.len() ==> #[trigger] entries[i].0@ != #[trigger] entries[j].0@
}

/// No entry name holds a path separator.
pub open spec fn names_plain(entries: Seq<(String, TreeEntry)>) -> bool {
    forall|i: int| 0 <= i < entries.len() ==> !has_separator(#[trigger] entries[i].0@)
}

/// The entries with name `n`, in order.
pub open spec fn named(entries: Seq<(String, TreeEntry)>, n: Seq<char>) -> Seq<(String, TreeEntry)> {
    entries.filter(has_name(n))
}

/// Whether an entry has name `n`.
pub open spec fn has_name(n: Seq<char>) -> spec_fn((String, TreeEntry)) -> bool {
    |e: (String, TreeEntry)| e.0@ == n
}

/// Moving the next entry `x` of the input into a sorted output at `j`, past
/// every entry named no later than it, keeps the entries of each name in
/// their input order.
proof fn lemma_named_insert(
    before: Seq<(String, TreeEntry)>,
    j: int,
    x: (String, TreeEntry),
    n: Seq<char>,
    rest: Seq<(String, TreeEntry)>,
)
    requires
        0 <= j <= before.len(),
        entries_sorted_pairwise(before),
        j < before.len() ==> !str_le(before[j].0@, x.0@),
    ensures
        named(before, n) + named(seq![x] + rest, n) == named(before.take(j) + seq![x] + before.skip(j), n) + named(
            rest,
            n,
        ),
{
    broadcast use vstd::seq_lib::group_filter_ensures;

    let p = has_name(n);
    let a = before.take(j);
    let b = before.skip(j);
    assert(before =~= a + b);
    Seq::filter_distributes_over_add(a, b, p);
    Seq::filter_distributes_over_add(a + seq![x], b, p);
    Seq::filter_distributes_over_add(a, seq![x], p);
    rest.lemma_filter_prepend(x, p);
    assert(Seq::<(String, TreeEntry)>::empty().filter(p) =~= Seq::<(String, TreeEntry)>::empty()) by {
        reveal(Seq::filter);
    }
    Seq::<(String, TreeEntry)>::empty().lemma_filter_prepend(x, p);
    assert(seq![x] + Seq::<(String, TreeEntry)>::empty() =~= seq![x]);
    if x.0@ == n {
        assert forall|k: int| 0 <= k < b.len() implies !p(#[trigger] b[k]) by {
            if b[k].0@ == n {
                assert(b[k] == before[j + k]);
                if k > 0 {
                    assert(str_le(before[j].0@, before[j + k].0@));
                } else {
                    lemma_lex_le_reflexive(vstd::utf8::encode_utf8(x.0@));
                }
            }
        }
        assert(b.filter(p).len() == 0) by {
            b.lemma_all_neg_filter_empty(p);
        }
        assert(b.filter(p) =~= Seq::<(String, TreeEntry)>::empty());
    }
    assert(named(before, n) + named(seq![x] + rest, n) =~= named(a + seq![x] + b, n) + named(rest, n));
}

/// Multiset reasoning: inserting into a sequence adds the element to its multiset.
pub proof fn lemma_insert_to_multiset<A>(s: Seq<A>, j: int, x: A)
    requires
        0 <= j <= s.len(),
    ensures
        s.insert(j, x).to_multiset() =~= s.to_multiset().insert(x),
{
    let t = s.insert(j, x);
    assert(t.remove(j) =~= s);
    assert(t.remove(j).to_multiset() =~= t.to_multiset().remove(t[j]));
    assert(t.contains(x)) by {
        assert(t[j] == x);
    }
}

impl Tree {
    pub fn new() -> (t: Self)
        ensures
            t.entries@.len() == 0,
    {
        Tree { entries: Vec::new() }
    }

    /// The tree invariants: unique names, no separators, sorted by name.
    pub open spec fn spec_valid(&self) -> bool {
        &&& names_unique(self.entries@)
        &&& names_plain(self.entries@)
        &&& entries_sorted(self.entries@)
    }

    /// Appends an entry. Names must be single path components.
    pub fn add_entry(&mut self, name: String, entry: TreeEntry)
        requires
            !has_separator(name@),
        ensures
            final(self).entries@ == old(self).entries@.push((name, entry)),
    {
        self.entries.push((name, entry));
    }

    /// Sorts the entries by name in string order, keeping the same entries.
    pub fn sort(&mut self)
        ensures
            entries_sorted(final(self).entries@),
            entries_sorted_pairwise(final(self).entries@),
            final(self).entries@.to_multiset() =~= old(self).entries@.to_multiset(),
            forall|n: Seq<char>| #[trigger] named(final(self).entries@, n) == named(old(self).entries@, n),
    {
        let mut rest: Vec<(String, TreeEntry)> = Vec::new();
        std::mem::swap(&mut rest, &mut self.entries);
        let ghost initial = rest@;
        let mut out: Vec<(String, TreeEntry)> = Vec::new();
        proof {
            assert forall|n: Seq<char>| #[trigger] named(initial, n) == named(out@, n) + named(rest@, n) by {
                assert(named(out@, n) =~= Seq::<(String, TreeEntry)>::empty());
                assert(named(out@, n) + named(rest@, n) =~= named(rest@, n));
            }
        }
        while rest.len() > 0
            invariant
                entries_sorted_pairwise(out@),
                out@.to_multiset().add(rest@.to_multiset()) =~= initial.to_multiset(),
                forall|n: Seq<char>| #[trigger] named(initial, n) == named(out@, n) + named(rest@, n),
            decreases rest@.len(),
        {
            let ghost before_rest = rest@;
            let x = rest.remove(0);
            assert(rest@.to_multiset() =~= before_rest.to_multiset().remove(x));
            let mut j: usize = 0;
            while j < out.len() && str_le_exec(out[j].0.as_str(), x.0.as_str())
                invariant
                    j <= out@.len(),
                    forall|k: int| 0 <= k < j ==> str_le(#[trigger] out@[k].0@, x.0@),
                decreases out@.len() - j,
            {
                j = j + 1;
            }
            let ghost before = out@;
            proof {
                if j < before.len() {
                    lemma_lex_le_total(
                        vstd::utf8::encode_utf8(before[j as int].0@),
                        vstd::utf8::encode_utf8(x.0@),
                    );
                }
                assert forall|k: int| j <= k < before.len() implies str_le(x.0@, #[trigger] before[k].0@) by {
                    if k > j {
                        lemma_lex_le_transitive(
                            vstd::utf8::encode_utf8(x.0@),
                            vstd::utf8::encode_utf8(before[j as int].0@),
                            vstd::utf8::encode_utf8(before[k].0@),
                        );
                    }
                }
                lemma_insert_to_multiset(before, j as int, x);
            }
            out.insert(j, x);
            proof {
                assert forall|a: int, b: int| 0 <= a < b < out@.len() implies str_le(
                    #[trigger] out@[a].0@,
                    #[trigger] out@[b].0@,
                ) by {
                    if a < j && b > j {
                        assert(out@[a] == before[a]);
                        assert(out@[b] == before[b - 1]);
                        lemma_lex_le_transitive(
                            vstd::utf8::encode_utf8(before[a].0@),
                            vstd::utf8::encode_utf8(x.0@),
                            vstd::utf8::encode_utf8(before[b - 1].0@),
                        );
                    } else if a < j && b == j {
                    } else if a < j {
                        assert(out@[a] == before[a]);
                        assert(out@[b] == before[b]);
                    } else if a == j {
                        assert(out@[b] == before[b - 1]);
                    } else {
                        assert(out@[a] == before[a - 1]);
                        assert(out@[b] == before[b - 1]);
                    }
                }
                assert(before_rest.to_multiset() =~= rest@.to_multiset().insert(x)) by {
                    assert(before_rest.contains(x)) by { assert(before_rest[0] == x); }
                }
                assert(before_rest =~= seq![x] + rest@);
                assert(out@ =~= before.take(j as int) + seq![x] + before.skip(j as int));
                assert(before =~= before.take(j as int) + before.skip(j as int));
                assert forall|n: Seq<char>| #[trigger] named(initial, n) == named(out@, n) + named(rest@, n) by {
                    lemma_named_insert(before, j as int, x, n, rest@);
                }
            }
        }
        assert(rest@.to_multiset() =~= Multiset::empty());
        proof {
            assert(rest@ =~= Seq::<(String, TreeEntry)>::empty());
            assert forall|n: Seq<char>| #[trigger] named(out@, n) == named(initial, n) by {
                assert(named(rest@, n) =~= Seq::<(String, TreeEntry)>::empty());
                assert(named(out@, n) + named(rest@, n) =~= named(out@, n));
            }
        }
        self.entries = out;
    }

    /// Checks the tree invariants: unique names, no path separators in names,
    /// entries sorted by name. Names are checked first, entry by entry (a
    /// repeated name before a separator); then the order. The error names the
    /// first fault found.
    #[verifier::spinoff_prover]
    pub fn validate(&self) -> (r: Result<(), String>)
        ensures
            r is Ok <==> self.spec_valid(),
            forall|i: int|
                0 <= i < self.entries@.len() && #[trigger] name_fault(self.entries@, i) && (forall|k: int|
                    0 <= k < i ==> !name_fault(self.entries@, k)) ==> (r matches Err(m) && m@ == name_fault_message(
                    self.entries@,
                    i,
                )),
            (forall|k: int| 0 <= k < self.entries@.len() ==> !name_fault(self.entries@, k)) ==> forall|i: int|
                1 <= i < self.entries@.len() && !str_le(self.entries@[i - 1].0@, #[trigger] self.entries@[i].0@) && (
                forall|k: int| 1 <= k < i ==> str_le(self.entries@[k - 1].0@, #[trigger] self.entries@[k].0@)) ==> (r matches Err(
                    m,
                ) && m@ == order_fault_message(self.entries@, i)),
            r matches Err(m) ==> is_tree_error(self.entries@, m@),
    {
        let n = self.entries.len();
        let ghost e = self.entries@;
        let mut i: usize = 0;
        while i < n
            invariant
                n == self.entries@.len(),
                e == self.entries@,
                i <= n,
                forall|a: int, b: int|
                    0 <= a < b < i ==> #[trigger] self.entries@[a].0@ != #[trigger] self.entries@[b].0@,
                forall|a: int| 0 <= a < i ==> !has_separator(#[trigger] self.entries@[a].0@),
            decreases n - i,
        {
            let mut j: usize = 0;
            while j < i
                invariant
                    n == self.entries@.len(),
                    e == self.entries@,
                    i < n,
                    j <= i,
                    forall|a: int, b: int|
                        0 <= a < b < i ==> #[trigger] self.entries@[a].0@ != #[trigger] self.entries@[b].0@,
                    forall|a: int| 0 <= a < i ==> !has_separator(#[trigger] self.entries@[a].0@),
                    forall|a: int| 0 <= a < j ==> #[trigger] self.entries@[a].0@ != self.entries@[i as int].0@,
                decreases i - j,
            {
                if self.entries[j].0 == self.entries[i].0 {
                    proof {
                        assert(e[j as int].0@ == e[i as int].0@);
                        assert(repeats_name(e, i as int));
                        lemma_first_name_fault(e, i as int);
                    }
                    let mut msg = String::from_str("Duplicate entry name: ");
                    proof {
                        reveal_strlit("Duplicate entry name: ");
                    }
                    msg.append(self.entries[i].0.as_str());
                    assert(is_tree_error(e, msg@));
                    return Err(msg);
                }
                j = j + 1;
            }
            if contains_separator(self.entries[i].0.as_str()) {
                proof {
                    assert(!repeats_name(e, i as int));
                    lemma_first_name_fault(e, i as int);
                }
                let mut msg = String::from_str("Tree entry name contains path separator: ");
                proof {
                    reveal_strlit("Tree entry name contains path separator: ");
                }
                msg.append(self.entries[i].0.as_str());
                assert(is_tree_error(e, msg@));
                return Err(msg);
            }
            i = i + 1;
        }
        proof {
            assert forall|k: int| 0 <= k < n implies !name_fault(e, k) by {
                assert(!has_separator(e[k].0@));
                if repeats_name(e, k) {
                    let j = choose|j: int| 0 <= j < k && e[j].0@ == e[k].0@;
                    assert(e[j].0@ != e[k].0@);
                }
            }
        }
        let mut i: usize = 1;
        while i < n
            invariant
                n == self.entries@.len(),
                e == self.entries@,
                1 <= i,
                names_unique(self.entries@),
                names_plain(self.entries@),
                forall|k: int| 0 <= k < n ==> !name_fault(e, k),
                forall|k: int|
                    1 <= k < i && k < n ==> str_le(self.entries@[k - 1].0@, #[trigger] self.entries@[k].0@),
            decreases n - i,
        {
            if !str_le_exec(self.entries[i - 1].0.as_str(), self.entries[i].0.as_str()) {
                let mut msg = String::from_str("Tree entries not sorted: '");
                proof {
                    reveal_strlit("Tree entries not sorted: '");
                    reveal_strlit("' should come before '");
                    reveal_strlit("'");
                }
                msg.append(self.entries[i].0.as_str());
                msg.append("' should come before '");
                msg.append(self.entries[i - 1].0.as_str());
                msg.append("'");
                proof {
                    assert forall|i2: int|
                        1 <= i2 < n && !str_le(e[i2 - 1].0@, #[trigger] e[i2].0@) && (forall|k: int|
                            1 <= k < i2 ==> str_le(e[k - 1].0@, #[trigger] e[k].0@)) implies i2 == i by {
                        if i2 < i {
                            assert(str_le(e[i2 - 1].0@, e[i2].0@));
                        }
                        if i2 > i {
                            assert(str_le(e[i - 1].0@, e[i as int].0@));
                        }
                    }
                    assert(is_tree_error(e, msg@));
                }
                return Err(msg);
            }
            i = i + 1;
        }
        Ok(())
    }
}

/// Whether the entry at `i` repeats the name of an earlier entry.
pub open spec fn repeats_name(entries: Seq<(String, TreeEntry)>, i: int) -> bool {
    exists|j: int| 0 <= j < i && entries[j].0@ == entries[i].0@
}

/// Whether the entry at `i` fails the name checks: a repeated name or a path
/// separator.
pub open spec fn name_fault(entries: Seq<(String, TreeEntry)>, i: int) -> bool {
    repeats_name(entries, i) || has_separator(entries[i].0@)
}

/// The error for a name fault at `i`; a repeated name is reported first.
pub open spec fn name_fault_message(entries: Seq<(String, TreeEntry)>, i: int) -> Seq<char> {
    if repeats_name(entries, i) {
        "Duplicate entry name: "@ + entries[i].0@
    } else {
        "Tree entry name contains path separator: "@ + entries[i].0@
    }
}

/// Whether `m` is the error for the first fault of these entries: the
/// first name fault, or, when there is none, the first pair out of order.
pub open spec fn is_tree_error(entries: Seq<(String, TreeEntry)>, m: Seq<char>) -> bool {
    ||| exists|i: int|
        0 <= i < entries.len() && #[trigger] name_fault(entries, i) && (forall|k: int|
            0 <= k < i ==> !name_fault(entries, k)) && m == name_fault_message(entries, i)
    ||| (forall|k: int| 0 <= k < entries.len() ==> !name_fault(entries, k)) && exists|i: int|
        1 <= i < entries.len() && !str_le(entries[i - 1].0@, #[trigger] entries[i].0@) && (forall|k: int|
            1 <= k < i ==> str_le(entries[k - 1].0@, #[trigger] entries[k].0@)) && m == order_fault_message(entries, i)
}

/// The error for entries `i - 1` and `i` out of order.
pub open spec fn order_fault_message(entries: Seq<(String, TreeEntry)>, i: int) -> Seq<char> {
    "Tree entries not sorted: '"@ + entries[i].0@ + "' should come before '"@ + entries[i - 1].0@ + "'"@
}

/// When every entry before `i` passes the name checks and `i` does not, `i`
/// is the only first name fault.
proof fn lemma_first_name_fault(entries: Seq<(String, TreeEntry)>, i: int)
    requires
        0 <= i < entries.len(),
        name_fault(entries, i),
        forall|a: int, b: int| 0 <= a < b < i ==> #[trigger] entries[a].0@ != #[trigger] entries[b].0@,
        forall|a: int| 0 <= a < i ==> !has_separator(#[trigger] entries[a].0@),
    ensures
        forall|k: int| 0 <= k < i ==> !name_fault(entries, k),
        forall|i2: int|
            0 <= i2 < entries.len() && #[trigger] name_fault(entries, i2) && (forall|k: int|
                0 <= k < i2 ==> !name_fault(entries, k)) ==> i2 == i,
{
    assert forall|k: int| 0 <= k < i implies !name_fault(entries, k) by {
        assert(!has_separator(entries[k].0@));
        if repeats_name(entries, k) {
            let j = choose|j: int| 0 <= j < k && entries[j].0@ == entries[k].0@;
            assert(entries[j].0@ != entries[k].0@);
        }
    }
}

/// A snapshot: the root tree, parent commits, author, message and time.
#[derive(Debug)]
pub struct Commit {
    pub tree: String,
    pub parents: Vec<String>,
    pub author: String,
    pub message: String,
    pub timestamp: i64,
}

/// The error for the first fault of a commit: no tree, else no message.
pub open spec fn commit_error_message(c: Commit) -> Seq<char> {
    if c.tree@.len() == 0 {
        "Commit must have a tree"@
    } else {
        "Commit must have a message"@
    }
}

impl Commit {
    /// A commit names a tree and carries a message.
    pub open spec fn spec_valid(&self) -> bool {
        self.tree@.len() > 0 && self.message@.len() > 0
    }

    /// Checks the commit invariants; the tree is checked first.
    pub fn validate(&self) -> (r: Result<(), String>)
        ensures
            r is Ok <==> self.spec_valid(),
            self.tree@.len() == 0 ==> (r matches Err(m) && m@ == "Commit must have a tree"@),
            self.tree@.len() > 0 && self.message@.len() == 0 ==> (r matches Err(m) && m@
                == "Commit must have a message"@),
            r matches Err(m) ==> m@ == commit_error_message(*self),
    {
        proof {
            reveal_strlit("Commit must have a tree");
            reveal_strlit("Commit must have a message");
        }
        if self.tree.as_str().is_empty() {
            return Err(String::from_str("Commit must have a tree"));
        }
        if self.message.as_str().is_empty() {
            return Err(String::from_str("Commit must have a message"));
        }
        Ok(())
    }
}

/// Any stored object.
#[derive(Debug)]
pub enum Object {
    Blob(Blob),
    Tree(Tree),
    Commit(Commit),
}

impl Object {
    /// The invariants of whichever object this is.
    pub open spec fn spec_valid(&self) -> bool {
        match self {
            Object::Blob(b) => b.spec_valid(),
            Object::Tree(t) => t.spec_valid(),
            Object::Commit(c) => c.spec_valid(),
        }
    }

    /// What a blob needs for its sizes to be added up without overflow.
    pub open spec fn can_validate(&self) -> bool {
        match self {
            Object::Blob(b) => sum_sizes(b.chunks@) <= u64::MAX,
            _ => true,
        }
    }

    /// Checks the invariants of the object; the error is that of its kind.
    pub fn validate(&self) -> (r: Result<(), String>)
        requires
            self.can_validate(),
        ensures
            r is Ok <==> self.spec_valid(),
            r matches Err(m) ==> match self {
                Object::Blob(b) => is_blob_error(b.total_size, b.chunks@, m@),
                Object::Tree(t) => is_tree_error(t.entries@, m@),
                Object::Commit(c) => m@ == commit_error_message(*c),
            },
    {
        match self {
            Object::Blob(blob) => blob.validate(),
            Object::Tree(tree) => tree.validate(),
            Object::Commit(commit) => commit.validate(),
        }
    }
}

} // verus!
